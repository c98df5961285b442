//! The persistence gateway: a deterministic text codec for the whole
//! aggregate, in the shape
//! `{"tasks":[...],"categories":[...],"pomodoro_duration_minutes":...,
//! "active_pomodoro_starttime":...,"default_category_id":...}`,
//! and the proof that reading back what was written restores the aggregate
//! field for field.

use vstd::prelude::*;
use vstd::string::{StringExecFns, StrSliceExecFns};
use crate::model::{
    Category, CategoryView, Pomodoro, Task, TaskView, char_to_string, task_views, cat_views,
};
use crate::database::{Database, DatabaseView};
use crate::numbers::{
    dec_rep, is_digit_char, lemma_dec_rep_digits, lemma_parse_dec_rep, parse_u64, spec_parse_u64,
    u64_to_string,
};

verus! {

/// How one character is stored inside a quoted string: quotes and
/// backslashes carry a backslash escape, everything else stands as itself.
pub open spec fn esc_char(c: char) -> Seq<char> {
    if c == '"' || c == '\\' {
        seq!['\\', c]
    } else {
        seq![c]
    }
}

/// The stored body of a quoted string.
pub open spec fn esc(t: Seq<char>) -> Seq<char>
    decreases t.len(),
{
    if t.len() == 0 {
        Seq::empty()
    } else {
        esc_char(t[0]) + esc(t.drop_first())
    }
}

/// Escaping distributes over concatenation.
proof fn lemma_esc_append(a: Seq<char>, b: Seq<char>)
    ensures
        esc(a + b) == esc(a) + esc(b),
    decreases a.len(),
{
    if a.len() == 0 {
        assert(a + b =~= b);
        assert(esc(a) + esc(b) =~= esc(b));
    } else {
        lemma_esc_append(a.drop_first(), b);
        assert((a + b).drop_first() =~= a.drop_first() + b);
        assert((a + b)[0] == a[0]);
        assert(esc_char(a[0]) + (esc(a.drop_first()) + esc(b)) =~= (esc_char(a[0]) + esc(
            a.drop_first(),
        )) + esc(b));
    }
}

/// A quoted, escaped string.
pub open spec fn ser_string(t: Seq<char>) -> Seq<char> {
    seq!['"'] + (esc(t) + seq!['"'])
}

/// A stored boolean.
pub open spec fn ser_bool(b: bool) -> Seq<char> {
    if b {
        "true"@
    } else {
        "false"@
    }
}

/// A stored optional number: `null` or its digits.
pub open spec fn ser_opt_u64(o: Option<u64>) -> Seq<char> {
    match o {
        None => "null"@,
        Some(v) => dec_rep(v as nat),
    }
}

/// A stored optional id: `null` or its digits.
pub open spec fn ser_opt_u32(o: Option<u32>) -> Seq<char> {
    match o {
        None => "null"@,
        Some(v) => dec_rep(v as nat),
    }
}

/// A stored optional hotkey: `null` or a one-character string.
pub open spec fn ser_hotkey(o: Option<char>) -> Seq<char> {
    match o {
        None => "null"@,
        Some(c) => seq!['"'] + (esc_char(c) + seq!['"']),
    }
}

/// Reading a fixed text: the position directly after it, or nothing when it
/// is not there.
pub open spec fn spec_parse_lit(s: Seq<char>, pos: int, lit: Seq<char>) -> Option<int> {
    if 0 <= pos && pos + lit.len() <= s.len() && s.subrange(pos, pos + lit.len()) == lit {
        Some(pos + lit.len())
    } else {
        None
    }
}

/// Reading a stored boolean.
pub open spec fn spec_parse_bool(s: Seq<char>, pos: int) -> Option<(bool, int)> {
    match spec_parse_lit(s, pos, "true"@) {
        Some(e) => Some((true, e)),
        None => match spec_parse_lit(s, pos, "false"@) {
            Some(e) => Some((false, e)),
            None => None,
        },
    }
}

/// Reading a stored optional number.
pub open spec fn spec_parse_opt_u64(s: Seq<char>, pos: int) -> Option<(Option<u64>, int)> {
    match spec_parse_lit(s, pos, "null"@) {
        Some(e) => Some((None, e)),
        None => match spec_parse_u64(s, pos) {
            Some((v, e)) => Some((Some(v as u64), e)),
            None => None,
        },
    }
}

/// Reading a stored number that must fit an id.
pub open spec fn spec_parse_u32(s: Seq<char>, pos: int) -> Option<(u32, int)> {
    match spec_parse_u64(s, pos) {
        Some((v, e)) => if v <= 0xFFFF_FFFFu32 {
            Some((v as u32, e))
        } else {
            None
        },
        None => None,
    }
}

/// Reading a stored optional id.
pub open spec fn spec_parse_opt_u32(s: Seq<char>, pos: int) -> Option<(Option<u32>, int)> {
    match spec_parse_lit(s, pos, "null"@) {
        Some(e) => Some((None, e)),
        None => match spec_parse_u32(s, pos) {
            Some((v, e)) => Some((Some(v), e)),
            None => None,
        },
    }
}

/// Reading the body of a quoted string after the opening quote: the text up
/// to the closing quote, with escapes undone.
pub open spec fn spec_parse_str_body(s: Seq<char>, pos: int) -> Option<(Seq<char>, int)>
    decreases s.len() - pos,
{
    if pos < 0 || pos >= s.len() {
        None
    } else if s[pos] == '"' {
        Some((Seq::empty(), pos + 1))
    } else if s[pos] == '\\' {
        if pos + 1 < s.len() && (s[pos + 1] == '"' || s[pos + 1] == '\\') {
            match spec_parse_str_body(s, pos + 2) {
                Some((t, e)) => Some((seq![s[pos + 1]] + t, e)),
                None => None,
            }
        } else {
            None
        }
    } else {
        match spec_parse_str_body(s, pos + 1) {
            Some((t, e)) => Some((seq![s[pos]] + t, e)),
            None => None,
        }
    }
}

/// Reading a quoted string.
pub open spec fn spec_parse_string(s: Seq<char>, pos: int) -> Option<(Seq<char>, int)> {
    if 0 <= pos < s.len() && s[pos] == '"' {
        spec_parse_str_body(s, pos + 1)
    } else {
        None
    }
}

/// Reading a stored optional hotkey.
pub open spec fn spec_parse_hotkey(s: Seq<char>, pos: int) -> Option<(Option<char>, int)> {
    match spec_parse_lit(s, pos, "null"@) {
        Some(e) => Some((None, e)),
        None => match spec_parse_string(s, pos) {
            Some((t, e)) => if t.len() == 1 {
                Some((Some(t[0]), e))
            } else {
                None
            },
            None => None,
        },
    }
}

/// A window that holds a concatenation splits into windows holding the parts.
proof fn lemma_subrange_split(s: Seq<char>, pos: int, a: Seq<char>, b: Seq<char>)
    requires
        0 <= pos,
        pos + a.len() + b.len() <= s.len(),
        s.subrange(pos, pos + a.len() + b.len()) == a + b,
    ensures
        s.subrange(pos, pos + a.len()) == a,
        s.subrange(pos + a.len(), pos + a.len() + b.len()) == b,
{
    assert forall|k: int| 0 <= k < a.len() implies s.subrange(pos, pos + a.len())[k] == a[k] by {
        assert(s.subrange(pos, pos + a.len() + b.len())[k] == (a + b)[k]);
        assert(s.subrange(pos, pos + a.len() + b.len())[k] == s[pos + k]);
        assert(s.subrange(pos, pos + a.len())[k] == s[pos + k]);
    }
    assert(s.subrange(pos, pos + a.len()) =~= a);
    assert forall|k: int| 0 <= k < b.len() implies s.subrange(
        pos + a.len(),
        pos + a.len() + b.len(),
    )[k] == b[k] by {
        assert(s.subrange(pos, pos + a.len() + b.len())[a.len() + k] == (a + b)[a.len() + k]);
        assert(s.subrange(pos, pos + a.len() + b.len())[a.len() + k] == s[pos + (a.len() + k)]);
        assert(s.subrange(pos + a.len(), pos + a.len() + b.len())[k] == s[(pos + a.len()) + k]);
        assert(s[pos + (a.len() + k)] == s[(pos + a.len()) + k]);
        assert((a + b)[a.len() + k] == b[k]);
    }
    assert(s.subrange(pos + a.len(), pos + a.len() + b.len()) =~= b);
}

/// The first character under a window that holds a non-empty piece.
proof fn lemma_window_first(s: Seq<char>, pos: int, a: Seq<char>)
    requires
        0 <= pos,
        pos + a.len() <= s.len(),
        s.subrange(pos, pos + a.len()) == a,
        a.len() >= 1,
    ensures
        s[pos] == a[0],
        a.len() >= 2 ==> s[pos + 1] == a[1],
{
    assert(s.subrange(pos, pos + a.len())[0] == s[pos + 0]);
    assert(s[pos + 0] == s[pos]);
    if a.len() >= 2 {
        assert(s.subrange(pos, pos + a.len())[1] == s[pos + 1]);
    }
}

/// The body parser undoes the escaper: after the stored body and its closing
/// quote it returns exactly the original text.
proof fn lemma_parse_str_body_round(t: Seq<char>, s: Seq<char>, pos: int)
    requires
        0 <= pos,
        pos + esc(t).len() + 1 <= s.len(),
        s.subrange(pos, pos + esc(t).len()) == esc(t),
        s[pos + esc(t).len()] == '"',
    ensures
        spec_parse_str_body(s, pos) == Some((t, pos + esc(t).len() + 1)),
    decreases t.len(),
{
    if t.len() == 0 {
        assert(s.subrange(pos, pos + esc(t).len()) =~= Seq::<char>::empty());
        assert(s[pos + 0] == s[pos]);
        assert(s[pos] == '"');
    } else {
        let c = t[0];
        let rest = t.drop_first();
        assert(esc(t) == esc_char(c) + esc(rest));
        let clen = esc_char(c).len();
        lemma_subrange_split(s, pos, esc_char(c), esc(rest));
        lemma_window_first(s, pos, esc_char(c));
        assert(s[(pos + clen) + esc(rest).len()] == s[pos + esc(t).len()]);
        if c == '"' || c == '\\' {
            assert(s[pos] == '\\');
            assert(s[pos + 1] == c);
            lemma_parse_str_body_round(rest, s, pos + 2);
            assert(seq![c] + rest =~= t);
        } else {
            assert(s[pos] == c);
            assert(s[pos] != '"' && s[pos] != '\\');
            lemma_parse_str_body_round(rest, s, pos + 1);
            assert(seq![c] + rest =~= t);
        }
    }
}

/// The string parser undoes the string serializer.
proof fn lemma_parse_string_round(t: Seq<char>, s: Seq<char>, pos: int)
    requires
        0 <= pos,
        pos + ser_string(t).len() <= s.len(),
        s.subrange(pos, pos + ser_string(t).len()) == ser_string(t),
    ensures
        spec_parse_string(s, pos) == Some((t, pos + ser_string(t).len())),
{
    assert(ser_string(t) == seq!['"'] + (esc(t) + seq!['"']));
    lemma_subrange_split(s, pos, seq!['"'], esc(t) + seq!['"']);
    lemma_window_first(s, pos, seq!['"']);
    lemma_subrange_split(s, pos + 1, esc(t), seq!['"']);
    lemma_window_first(s, (pos + 1) + esc(t).len(), seq!['"']);
    assert(s[(pos + 1) + esc(t).len()] == '"');
    lemma_parse_str_body_round(t, s, pos + 1);
    assert((pos + 1) + (esc(t).len() + 1) == pos + ser_string(t).len());
}

/// Appends the stored form of a string to the output.
fn write_string(out: &mut String, t: &str)
    ensures
        final(out)@ == old(out)@ + ser_string(t@),
{
    proof {
        reveal_strlit("\"");
        reveal_strlit("\\\"");
        reveal_strlit("\\\\");
    }
    out.append("\"");
    let n = t.unicode_len();
    let mut i: usize = 0;
    proof {
        assert(t@.take(0) =~= Seq::<char>::empty());
        assert(out@ =~= old(out)@ + seq!['"'] + esc(t@.take(0)));
    }
    while i < n
        invariant
            i <= n,
            n == t@.len(),
            out@ == old(out)@ + seq!['"'] + esc(t@.take(i as int)),
        decreases n - i,
    {
        let c = t.get_char(i);
        if c == '"' {
            out.append("\\\"");
            proof {
                reveal_strlit("\\\"");
            }
        } else if c == '\\' {
            out.append("\\\\");
            proof {
                reveal_strlit("\\\\");
            }
        } else {
            let piece = t.substring_char(i, i + 1);
            out.append(piece);
            proof {
                assert(piece@ =~= seq![t@[i as int]]);
            }
        }
        proof {
            lemma_esc_append(t@.take(i as int), seq![t@[i as int]]);
            assert(t@.take(i as int) + seq![t@[i as int]] =~= t@.take(i as int + 1));
            assert(esc(seq![t@[i as int]]) == esc_char(t@[i as int]) + esc(
                seq![t@[i as int]].drop_first(),
            ));
            assert(seq![t@[i as int]].drop_first() =~= Seq::<char>::empty());
            assert(esc_char(t@[i as int]) + Seq::<char>::empty() =~= esc_char(t@[i as int]));
            assert(out@ =~= old(out)@ + seq!['"'] + esc(t@.take(i as int + 1)));
        }
        i = i + 1;
    }
    out.append("\"");
    proof {
        assert(t@.take(n as int) =~= t@);
        assert(out@ =~= old(out)@ + ser_string(t@));
    }
}

/// Appends the stored form of a boolean to the output.
fn write_bool(out: &mut String, b: bool)
    ensures
        final(out)@ == old(out)@ + ser_bool(b),
{
    if b {
        out.append("true");
    } else {
        out.append("false");
    }
}

/// Appends the stored form of an optional number to the output.
fn write_opt_u64(out: &mut String, o: Option<u64>)
    ensures
        final(out)@ == old(out)@ + ser_opt_u64(o),
{
    match o {
        None => out.append("null"),
        Some(v) => {
            let s = u64_to_string(v);
            out.append(s.as_str());
        },
    }
}

/// Appends the stored form of an optional id to the output.
fn write_opt_u32(out: &mut String, o: Option<u32>)
    ensures
        final(out)@ == old(out)@ + ser_opt_u32(o),
{
    match o {
        None => out.append("null"),
        Some(v) => {
            let s = u64_to_string(v as u64);
            out.append(s.as_str());
        },
    }
}

/// Appends the stored form of an optional hotkey to the output.
fn write_hotkey(out: &mut String, o: Option<char>)
    ensures
        final(out)@ == old(out)@ + ser_hotkey(o),
{
    match o {
        None => out.append("null"),
        Some(c) => {
            proof {
                reveal_strlit("\"");
                reveal_strlit("\\\"");
                reveal_strlit("\\\\");
            }
            out.append("\"");
            if c == '"' {
                out.append("\\\"");
            } else if c == '\\' {
                out.append("\\\\");
            } else {
                let h = char_to_string(c);
                out.append(h.as_str());
            }
            out.append("\"");
            proof {
                assert(out@ =~= old(out)@ + ser_hotkey(o));
            }
        },
    }
}

/// The characters of a text, in order.
fn chars_of(t: &str) -> (r: Vec<char>)
    ensures
        r@ == t@,
{
    let n = t.unicode_len();
    let mut out: Vec<char> = Vec::new();
    let mut i: usize = 0;
    while i < n
        invariant
            i <= n,
            n == t@.len(),
            out@ == t@.take(i as int),
        decreases n - i,
    {
        out.push(t.get_char(i));
        proof {
            assert(out@ =~= t@.take(i as int + 1));
        }
        i = i + 1;
    }
    proof {
        assert(out@ =~= t@);
    }
    out
}

/// Reads a fixed text at `pos`.
fn p_lit(s: &Vec<char>, pos: usize, lit: &str) -> (r: Option<usize>)
    ensures
        match r {
            Some(e) => spec_parse_lit(s@, pos as int, lit@) == Some(e as int) && pos <= e
                <= s@.len(),
            None => spec_parse_lit(s@, pos as int, lit@) is None,
        },
{
    let n = lit.unicode_len();
    if pos > s.len() || s.len() - pos < n {
        return None;
    }
    let mut j: usize = 0;
    let mut k: usize = pos;
    while j < n
        invariant
            j <= n,
            k == pos + j,
            n == lit@.len(),
            pos + n <= s.len(),
            pos + n <= s@.len(),
            forall|q: int| 0 <= q < j ==> s@[pos + q] == lit@[q],
        decreases n - j,
    {
        if s[k] != lit.get_char(j) {
            proof {
                assert(s@[pos + j as int] == s@[k as int]);
                assert(s@.subrange(pos as int, pos + lit@.len())[j as int] == s@[pos + j as int]);
            }
            return None;
        }
        proof {
            assert(s@[pos + j as int] == s@[k as int]);
        }
        j = j + 1;
        k = k + 1;
    }
    proof {
        assert forall|q: int| 0 <= q < n implies s@.subrange(pos as int, pos + lit@.len())[q]
            == lit@[q] by {
            assert(s@[pos + q] == lit@[q]);
            assert(s@.subrange(pos as int, pos + lit@.len())[q] == s@[pos + q]);
        }
        assert(s@.subrange(pos as int, pos + lit@.len()) =~= lit@);
    }
    Some(pos + n)
}

/// Reads a stored boolean at `pos`.
fn p_bool(s: &Vec<char>, pos: usize) -> (r: Option<(bool, usize)>)
    ensures
        match r {
            Some((v, e)) => spec_parse_bool(s@, pos as int) == Some((v, e as int)) && pos <= e
                <= s@.len(),
            None => spec_parse_bool(s@, pos as int) is None,
        },
{
    match p_lit(s, pos, "true") {
        Some(e) => Some((true, e)),
        None => match p_lit(s, pos, "false") {
            Some(e) => Some((false, e)),
            None => None,
        },
    }
}

/// Reads a stored optional number at `pos`.
fn p_opt_u64(s: &Vec<char>, pos: usize) -> (r: Option<(Option<u64>, usize)>)
    ensures
        match r {
            Some((v, e)) => spec_parse_opt_u64(s@, pos as int) == Some((v, e as int)) && pos <= e
                <= s@.len(),
            None => spec_parse_opt_u64(s@, pos as int) is None,
        },
{
    match p_lit(s, pos, "null") {
        Some(e) => Some((None, e)),
        None => match parse_u64(s, pos) {
            Some((v, e)) => Some((Some(v), e)),
            None => None,
        },
    }
}

/// Reads a stored id at `pos`.
fn p_u32(s: &Vec<char>, pos: usize) -> (r: Option<(u32, usize)>)
    ensures
        match r {
            Some((v, e)) => spec_parse_u32(s@, pos as int) == Some((v, e as int)) && pos <= e
                <= s@.len(),
            None => spec_parse_u32(s@, pos as int) is None,
        },
{
    match parse_u64(s, pos) {
        Some((v, e)) => {
            if v <= 0xFFFF_FFFFu64 {
                Some((v as u32, e))
            } else {
                None
            }
        },
        None => None,
    }
}

/// Reads a stored optional id at `pos`.
fn p_opt_u32(s: &Vec<char>, pos: usize) -> (r: Option<(Option<u32>, usize)>)
    ensures
        match r {
            Some((v, e)) => spec_parse_opt_u32(s@, pos as int) == Some((v, e as int)) && pos <= e
                <= s@.len(),
            None => spec_parse_opt_u32(s@, pos as int) is None,
        },
{
    match p_lit(s, pos, "null") {
        Some(e) => Some((None, e)),
        None => match p_u32(s, pos) {
            Some((v, e)) => Some((Some(v), e)),
            None => None,
        },
    }
}

/// Reads a quoted string at `pos`.
fn p_string(s: &Vec<char>, pos: usize) -> (r: Option<(String, usize)>)
    ensures
        match r {
            Some((v, e)) => spec_parse_string(s@, pos as int) == Some((v@, e as int)) && pos < e
                <= s@.len(),
            None => spec_parse_string(s@, pos as int) is None,
        },
{
    if pos >= s.len() || s[pos] != '"' {
        return None;
    }
    match p_str_body(s, pos + 1) {
        Some((v, e)) => Some((v, e)),
        None => None,
    }
}

/// Reads a string body at `pos`, after the opening quote.
fn p_str_body(s: &Vec<char>, pos: usize) -> (r: Option<(String, usize)>)
    ensures
        match r {
            Some((v, e)) => spec_parse_str_body(s@, pos as int) == Some((v@, e as int)) && pos < e
                <= s@.len(),
            None => spec_parse_str_body(s@, pos as int) is None,
        },
    decreases s@.len() - pos,
{
    if pos >= s.len() {
        return None;
    }
    let c = s[pos];
    if c == '"' {
        let empty = String::new();
        proof {
            assert(empty@ =~= Seq::<char>::empty());
        }
        Some((empty, pos + 1))
    } else if c == '\\' {
        if pos + 1 < s.len() && (s[pos + 1] == '"' || s[pos + 1] == '\\') {
            match p_str_body(s, pos + 2) {
                Some((t, e)) => {
                    let mut piece = char_to_string(s[pos + 1]);
                    piece.append(t.as_str());
                    proof {
                        assert(piece@ =~= seq![s@[pos as int + 1]] + t@);
                    }
                    Some((piece, e))
                },
                None => None,
            }
        } else {
            None
        }
    } else {
        match p_str_body(s, pos + 1) {
            Some((t, e)) => {
                let mut piece = char_to_string(c);
                piece.append(t.as_str());
                proof {
                    assert(piece@ =~= seq![s@[pos as int]] + t@);
                }
                Some((piece, e))
            },
            None => None,
        }
    }
}

/// Reads a stored optional hotkey at `pos`.
fn p_hotkey(s: &Vec<char>, pos: usize) -> (r: Option<(Option<char>, usize)>)
    ensures
        match r {
            Some((v, e)) => spec_parse_hotkey(s@, pos as int) == Some((v, e as int)) && pos <= e
                <= s@.len(),
            None => spec_parse_hotkey(s@, pos as int) is None,
        },
{
    match p_lit(s, pos, "null") {
        Some(e) => Some((None, e)),
        None => match p_string(s, pos) {
            Some((t, e)) => {
                if t.unicode_len() == 1 {
                    Some((Some(t.as_str().get_char(0)), e))
                } else {
                    None
                }
            },
            None => None,
        },
    }
}

} // verus!

verus! {

/// A stored interval record.
pub open spec fn ser_pomodoro(p: Pomodoro) -> Seq<char> {
    "{\"start_time\":"@ + (dec_rep(p.start_time as nat) + (",\"end_time\":"@ + (dec_rep(
        p.end_time as nat,
    ) + seq!['}'])))
}

/// The stored interval list after its first item: `,item...]` or `]`.
pub open spec fn ser_pom_tail(ps: Seq<Pomodoro>) -> Seq<char>
    decreases ps.len(),
{
    if ps.len() == 0 {
        seq![']']
    } else {
        seq![','] + (ser_pomodoro(ps[0]) + ser_pom_tail(ps.drop_first()))
    }
}

/// A stored interval list.
pub open spec fn ser_pom_list(ps: Seq<Pomodoro>) -> Seq<char> {
    if ps.len() == 0 {
        seq!['['] + seq![']']
    } else {
        seq!['['] + (ser_pomodoro(ps[0]) + ser_pom_tail(ps.drop_first()))
    }
}

/// Reading a stored interval record.
pub open spec fn spec_parse_pomodoro(s: Seq<char>, pos: int) -> Option<(Pomodoro, int)> {
    match spec_parse_lit(s, pos, "{\"start_time\":"@) {
        None => None,
        Some(p1) => match spec_parse_u64(s, p1) {
            None => None,
            Some((st, p2)) => match spec_parse_lit(s, p2, ",\"end_time\":"@) {
                None => None,
                Some(p3) => match spec_parse_u64(s, p3) {
                    None => None,
                    Some((et, p4)) => match spec_parse_lit(s, p4, "}"@) {
                        None => None,
                        Some(p5) => Some(
                            (Pomodoro { start_time: st as u64, end_time: et as u64 }, p5),
                        ),
                    },
                },
            },
        },
    }
}

/// Reading the rest of a stored interval list, after an item.
pub open spec fn spec_parse_pom_tail(s: Seq<char>, pos: int) -> Option<(Seq<Pomodoro>, int)>
    decreases s.len() - pos,
{
    if pos < 0 || pos >= s.len() {
        None
    } else if s[pos] == ']' {
        Some((Seq::empty(), pos + 1))
    } else if s[pos] == ',' {
        match spec_parse_pomodoro(s, pos + 1) {
            Some((p, e)) => if e <= pos + 1 || e > s.len() {
                None
            } else {
                match spec_parse_pom_tail(s, e) {
                    Some((ps, e2)) => Some((seq![p] + ps, e2)),
                    None => None,
                }
            },
            None => None,
        }
    } else {
        None
    }
}

/// Reading a stored interval list.
pub open spec fn spec_parse_pom_list(s: Seq<char>, pos: int) -> Option<(Seq<Pomodoro>, int)> {
    if 0 <= pos < s.len() && s[pos] == '[' {
        if pos + 1 < s.len() && s[pos + 1] == ']' {
            Some((Seq::empty(), pos + 2))
        } else {
            match spec_parse_pomodoro(s, pos + 1) {
                Some((p, e)) => if e <= pos + 1 || e > s.len() {
                    None
                } else {
                    match spec_parse_pom_tail(s, e) {
                        Some((ps, e2)) => Some((seq![p] + ps, e2)),
                        None => None,
                    }
                },
                None => None,
            }
        }
    } else {
        None
    }
}

/// Appends the stored form of an interval record.
fn write_pomodoro(out: &mut String, p: &Pomodoro)
    ensures
        final(out)@ == old(out)@ + ser_pomodoro(*p),
{
    out.append("{\"start_time\":");
    let st = u64_to_string(p.start_time);
    out.append(st.as_str());
    out.append(",\"end_time\":");
    let et = u64_to_string(p.end_time);
    out.append(et.as_str());
    out.append("}");
    proof {
        reveal_strlit("}");
        assert(out@ =~= old(out)@ + ser_pomodoro(*p));
    }
}

/// Appends the stored form of an interval list.
fn write_pom_list(out: &mut String, ps: &Vec<Pomodoro>)
    ensures
        final(out)@ == old(out)@ + ser_pom_list(ps@),
{
    proof {
        reveal_strlit("[");
        reveal_strlit("]");
        reveal_strlit(",");
    }
    out.append("[");
    if ps.len() == 0 {
        out.append("]");
        proof {
            assert(out@ =~= old(out)@ + ser_pom_list(ps@));
        }
        return ;
    }
    write_pomodoro(out, &ps[0]);
    let mut i: usize = 1;
    let ghost base = out@;
    proof {
        assert(ps@.skip(0).drop_first() =~= ps@.skip(1));
        assert(ps@.skip(0) =~= ps@);
    }
    while i < ps.len()
        invariant
            1 <= i <= ps@.len(),
            old(out)@ + ser_pom_list(ps@) == out@ + ser_pom_tail(ps@.skip(i as int)),
        decreases ps@.len() - i,
    {
        proof {
            reveal_strlit(",");
            assert(ps@.skip(i as int)[0] == ps@[i as int]);
            assert(ps@.skip(i as int).drop_first() =~= ps@.skip(i as int + 1));
        }
        out.append(",");
        write_pomodoro(out, &ps[i]);
        proof {
            assert(old(out)@ + ser_pom_list(ps@) =~= out@ + ser_pom_tail(ps@.skip(i as int + 1)));
        }
        i = i + 1;
    }
    out.append("]");
    proof {
        assert(ps@.skip(ps@.len() as int) =~= Seq::<Pomodoro>::empty());
        assert(old(out)@ + ser_pom_list(ps@) =~= out@);
    }
}

/// Reads a stored interval record at `pos`.
fn p_pomodoro(s: &Vec<char>, pos: usize) -> (r: Option<(Pomodoro, usize)>)
    ensures
        match r {
            Some((v, e)) => spec_parse_pomodoro(s@, pos as int) == Some((v, e as int)) && pos < e
                <= s@.len(),
            None => spec_parse_pomodoro(s@, pos as int) is None,
        },
{
    let p1 = match p_lit(s, pos, "{\"start_time\":") {
        Some(e) => e,
        None => {
            return None;
        },
    };
    let (st, p2) = match parse_u64(s, p1) {
        Some(v) => v,
        None => {
            return None;
        },
    };
    let p3 = match p_lit(s, p2, ",\"end_time\":") {
        Some(e) => e,
        None => {
            return None;
        },
    };
    let (et, p4) = match parse_u64(s, p3) {
        Some(v) => v,
        None => {
            return None;
        },
    };
    let p5 = match p_lit(s, p4, "}") {
        Some(e) => e,
        None => {
            return None;
        },
    };
    proof {
        reveal_strlit("{\"start_time\":");
    }
    Some((Pomodoro { start_time: st, end_time: et }, p5))
}

/// Reads the rest of a stored interval list at `pos`.
fn p_pom_tail(s: &Vec<char>, pos: usize) -> (r: Option<(Vec<Pomodoro>, usize)>)
    ensures
        match r {
            Some((v, e)) => spec_parse_pom_tail(s@, pos as int) == Some((v@, e as int)) && pos < e
                <= s@.len(),
            None => spec_parse_pom_tail(s@, pos as int) is None,
        },
    decreases s@.len() - pos,
{
    if pos >= s.len() {
        return None;
    }
    if s[pos] == ']' {
        let empty: Vec<Pomodoro> = Vec::new();
        proof {
            assert(empty@ =~= Seq::<Pomodoro>::empty());
        }
        return Some((empty, pos + 1));
    }
    if s[pos] != ',' {
        return None;
    }
    let (p, e) = match p_pomodoro(s, pos + 1) {
        Some(v) => v,
        None => {
            return None;
        },
    };
    match p_pom_tail(s, e) {
        Some((mut ps, e2)) => {
            ps.insert(0, p);
            proof {
                assert(ps@ =~= seq![p] + ps@.drop_first());
            }
            Some((ps, e2))
        },
        None => None,
    }
}

/// Reads a stored interval list at `pos`.
fn p_pom_list(s: &Vec<char>, pos: usize) -> (r: Option<(Vec<Pomodoro>, usize)>)
    ensures
        match r {
            Some((v, e)) => spec_parse_pom_list(s@, pos as int) == Some((v@, e as int)) && pos < e
                <= s@.len(),
            None => spec_parse_pom_list(s@, pos as int) is None,
        },
{
    if pos >= s.len() || s[pos] != '[' {
        return None;
    }
    if pos + 1 < s.len() && s[pos + 1] == ']' {
        let empty: Vec<Pomodoro> = Vec::new();
        proof {
            assert(empty@ =~= Seq::<Pomodoro>::empty());
        }
        return Some((empty, pos + 2));
    }
    let (p, e) = match p_pomodoro(s, pos + 1) {
        Some(v) => v,
        None => {
            return None;
        },
    };
    match p_pom_tail(s, e) {
        Some((mut ps, e2)) => {
            ps.insert(0, p);
            proof {
                assert(ps@ =~= seq![p] + ps@.drop_first());
            }
            Some((ps, e2))
        },
        None => None,
    }
}

/// A fixed text that does not start like a digit run cannot be read where a
/// digit stands.
proof fn lemma_lit_fails_at(s: Seq<char>, pos: int, lit: Seq<char>, c: char)
    requires
        0 <= pos < s.len(),
        s[pos] == c,
        lit.len() >= 1,
        lit[0] != c,
    ensures
        spec_parse_lit(s, pos, lit) is None,
{
    if pos + lit.len() <= s.len() {
        if s.subrange(pos, pos + lit.len()) == lit {
            assert(s.subrange(pos, pos + lit.len())[0] == s[pos + 0]);
            assert(false);
        }
    }
}

/// The number parser reads back exactly a written number when something
/// other than a digit follows it.
proof fn lemma_parse_number_here(n: u64, s: Seq<char>, pos: int)
    requires
        0 <= pos,
        pos + dec_rep(n as nat).len() < s.len(),
        s.subrange(pos, pos + dec_rep(n as nat).len()) == dec_rep(n as nat),
        !is_digit_char(s[pos + dec_rep(n as nat).len()]),
    ensures
        spec_parse_u64(s, pos) == Some((n as int, pos + dec_rep(n as nat).len())),
        spec_parse_lit(s, pos, "null"@) is None,
{
    lemma_parse_dec_rep(s, pos, n as nat);
    lemma_dec_rep_digits(n as nat);
    lemma_window_first(s, pos, dec_rep(n as nat));
    reveal_strlit("null");
    lemma_lit_fails_at(s, pos, "null"@, dec_rep(n as nat)[0]);
}

/// The interval parser undoes the interval serializer.
proof fn lemma_parse_pomodoro_round(p: Pomodoro, s: Seq<char>, pos: int)
    requires
        0 <= pos,
        pos + ser_pomodoro(p).len() <= s.len(),
        s.subrange(pos, pos + ser_pomodoro(p).len()) == ser_pomodoro(p),
    ensures
        spec_parse_pomodoro(s, pos) == Some((p, pos + ser_pomodoro(p).len())),
{
    reveal_strlit("{\"start_time\":");
    reveal_strlit(",\"end_time\":");
    reveal_strlit("}");
    let l1 = "{\"start_time\":"@;
    let d1 = dec_rep(p.start_time as nat);
    let l2 = ",\"end_time\":"@;
    let d2 = dec_rep(p.end_time as nat);
    let l3 = seq!['}'];
    lemma_subrange_split(s, pos, l1, d1 + (l2 + (d2 + l3)));
    let c1 = pos + l1.len();
    lemma_subrange_split(s, c1, d1, l2 + (d2 + l3));
    let c2 = c1 + d1.len();
    lemma_subrange_split(s, c2, l2, d2 + l3);
    let c3 = c2 + l2.len();
    lemma_subrange_split(s, c3, d2, l3);
    let c4 = c3 + d2.len();
    lemma_window_first(s, c2, l2);
    lemma_window_first(s, c4, l3);
    lemma_parse_number_here(p.start_time, s, c1);
    lemma_parse_number_here(p.end_time, s, c3);
    assert(spec_parse_lit(s, pos, l1) == Some(c1));
    assert(spec_parse_lit(s, c2, l2) == Some(c3));
    assert(s.subrange(c4, c4 + l3.len()) == "}"@);
    assert(spec_parse_lit(s, c4, "}"@) == Some(c4 + 1));
    assert((p.start_time as nat) as u64 == p.start_time);
}

/// The interval-list tail parser undoes the tail serializer.
#[verifier::rlimit(100)]
proof fn lemma_parse_pom_tail_round(ps: Seq<Pomodoro>, s: Seq<char>, pos: int)
    requires
        0 <= pos,
        pos + ser_pom_tail(ps).len() <= s.len(),
        s.subrange(pos, pos + ser_pom_tail(ps).len()) == ser_pom_tail(ps),
    ensures
        spec_parse_pom_tail(s, pos) == Some((ps, pos + ser_pom_tail(ps).len())),
    decreases ps.len(),
{
    if ps.len() == 0 {
        lemma_window_first(s, pos, seq![']']);
    } else {
        let item = ser_pomodoro(ps[0]);
        let rest = ser_pom_tail(ps.drop_first());
        lemma_subrange_split(s, pos, seq![','], item + rest);
        lemma_window_first(s, pos, seq![',']);
        lemma_subrange_split(s, pos + 1, item, rest);
        lemma_parse_pomodoro_round(ps[0], s, pos + 1);
        lemma_parse_pom_tail_round(ps.drop_first(), s, (pos + 1) + item.len());
        assert(item.len() >= 1) by {
            reveal_strlit("{\"start_time\":");
        }
        assert(rest.len() >= 1);
        assert(seq![ps[0]] + ps.drop_first() =~= ps);
    }
}

/// The interval-list parser undoes the list serializer.
#[verifier::rlimit(100)]
proof fn lemma_parse_pom_list_round(ps: Seq<Pomodoro>, s: Seq<char>, pos: int)
    requires
        0 <= pos,
        pos + ser_pom_list(ps).len() <= s.len(),
        s.subrange(pos, pos + ser_pom_list(ps).len()) == ser_pom_list(ps),
    ensures
        spec_parse_pom_list(s, pos) == Some((ps, pos + ser_pom_list(ps).len())),
{
    if ps.len() == 0 {
        lemma_subrange_split(s, pos, seq!['['], seq![']']);
        lemma_window_first(s, pos, seq!['[']);
        lemma_window_first(s, pos + 1, seq![']']);
    } else {
        let item = ser_pomodoro(ps[0]);
        let rest = ser_pom_tail(ps.drop_first());
        lemma_subrange_split(s, pos, seq!['['], item + rest);
        lemma_window_first(s, pos, seq!['[']);
        lemma_subrange_split(s, pos + 1, item, rest);
        lemma_parse_pomodoro_round(ps[0], s, pos + 1);
        lemma_parse_pom_tail_round(ps.drop_first(), s, (pos + 1) + item.len());
        lemma_window_first(s, pos + 1, item);
        assert(item.len() >= 1 && item[0] == '{') by {
            reveal_strlit("{\"start_time\":");
        }
        assert(s[pos + 1] == '{');
        assert(rest.len() >= 1);
        assert(seq![ps[0]] + ps.drop_first() =~= ps);
    }
}

} // verus!

verus! {

/// A stored task record.
pub open spec fn ser_task(t: TaskView) -> Seq<char> {
    "{\"id\":"@ + (dec_rep(t.id as nat) + (",\"description\":"@ + (ser_string(t.description) + (
    ",\"done\":"@ + (ser_bool(t.done) + (",\"past_pomodoros\":"@ + (ser_pom_list(t.past_pomodoros)
        + (",\"active_pomodoro_jointime\":"@ + (ser_opt_u64(t.active_pomodoro_jointime) + (
    ",\"parent\":"@ + (ser_opt_u32(t.parent) + (",\"category\":"@ + (dec_rep(t.category as nat) + (
    ",\"date_added\":"@ + (dec_rep(t.date_added as nat) + (",\"order\":"@ + (dec_rep(
        t.order as nat,
    ) + seq!['}'])))))))))))))))))
}

/// The stored task list after its first item.
pub open spec fn ser_task_tail(ts: Seq<TaskView>) -> Seq<char>
    decreases ts.len(),
{
    if ts.len() == 0 {
        seq![']']
    } else {
        seq![','] + (ser_task(ts[0]) + ser_task_tail(ts.drop_first()))
    }
}

/// A stored task list.
pub open spec fn ser_task_list(ts: Seq<TaskView>) -> Seq<char> {
    if ts.len() == 0 {
        seq!['['] + seq![']']
    } else {
        seq!['['] + (ser_task(ts[0]) + ser_task_tail(ts.drop_first()))
    }
}

/// A stored category record.
pub open spec fn ser_category(c: CategoryView) -> Seq<char> {
    "{\"id\":"@ + (dec_rep(c.id as nat) + (",\"name\":"@ + (ser_string(c.name) + (",\"hotkey\":"@
        + (ser_hotkey(c.hotkey) + (",\"visible\":"@ + (ser_bool(c.visible) + seq!['}'])))))))
}

/// The stored category list after its first item.
pub open spec fn ser_cat_tail(cs: Seq<CategoryView>) -> Seq<char>
    decreases cs.len(),
{
    if cs.len() == 0 {
        seq![']']
    } else {
        seq![','] + (ser_category(cs[0]) + ser_cat_tail(cs.drop_first()))
    }
}

/// A stored category list.
pub open spec fn ser_cat_list(cs: Seq<CategoryView>) -> Seq<char> {
    if cs.len() == 0 {
        seq!['['] + seq![']']
    } else {
        seq!['['] + (ser_category(cs[0]) + ser_cat_tail(cs.drop_first()))
    }
}

/// The stored aggregate.
pub open spec fn ser_document(db: DatabaseView) -> Seq<char> {
    "{\"tasks\":"@ + (ser_task_list(db.tasks) + (",\"categories\":"@ + (ser_cat_list(db.categories)
        + (",\"pomodoro_duration_minutes\":"@ + (dec_rep(db.pomodoro_duration_minutes as nat) + (
    ",\"active_pomodoro_starttime\":"@ + (ser_opt_u64(db.active_pomodoro_starttime) + (
    ",\"default_category_id\":"@ + (dec_rep(db.default_category_id as nat) + seq!['}'])))))))))
}

/// Reading a stored task record.
pub open spec fn spec_parse_task(s: Seq<char>, pos: int) -> Option<(TaskView, int)> {
    match spec_parse_lit(s, pos, "{\"id\":"@) {
        None => None,
        Some(p1) => match spec_parse_u32(s, p1) {
            None => None,
            Some((id, p2)) => match spec_parse_lit(s, p2, ",\"description\":"@) {
                None => None,
                Some(p3) => match spec_parse_string(s, p3) {
                    None => None,
                    Some((description, p4)) => match spec_parse_lit(s, p4, ",\"done\":"@) {
                        None => None,
                        Some(p5) => match spec_parse_bool(s, p5) {
                            None => None,
                            Some((done, p6)) => match spec_parse_lit(
                                s,
                                p6,
                                ",\"past_pomodoros\":"@,
                            ) {
                                None => None,
                                Some(p7) => match spec_parse_pom_list(s, p7) {
                                    None => None,
                                    Some((past, p8)) => match spec_parse_lit(
                                        s,
                                        p8,
                                        ",\"active_pomodoro_jointime\":"@,
                                    ) {
                                        None => None,
                                        Some(p9) => match spec_parse_opt_u64(s, p9) {
                                            None => None,
                                            Some((join, p10)) => match spec_parse_lit(
                                                s,
                                                p10,
                                                ",\"parent\":"@,
                                            ) {
                                                None => None,
                                                Some(p11) => match spec_parse_opt_u32(s, p11) {
                                                    None => None,
                                                    Some((parent, p12)) => match spec_parse_lit(
                                                        s,
                                                        p12,
                                                        ",\"category\":"@,
                                                    ) {
                                                        None => None,
                                                        Some(p13) => match spec_parse_u32(
                                                            s,
                                                            p13,
                                                        ) {
                                                            None => None,
                                                            Some((category, p14)) => match spec_parse_lit(
                                                                s,
                                                                p14,
                                                                ",\"date_added\":"@,
                                                            ) {
                                                                None => None,
                                                                Some(p15) => match spec_parse_u64(
                                                                    s,
                                                                    p15,
                                                                ) {
                                                                    None => None,
                                                                    Some((date, p16)) => match spec_parse_lit(
                                                                        s,
                                                                        p16,
                                                                        ",\"order\":"@,
                                                                    ) {
                                                                        None => None,
                                                                        Some(p17) => match spec_parse_u32(
                                                                            s,
                                                                            p17,
                                                                        ) {
                                                                            None => None,
                                                                            Some(
                                                                                (order, p18),
                                                                            ) => match spec_parse_lit(
                                                                                s,
                                                                                p18,
                                                                                "}"@,
                                                                            ) {
                                                                                None => None,
                                                                                Some(p19) => Some(
                                                                                    (
                                                                                        TaskView {
                                                                                            id,
                                                                                            description,
                                                                                            done,
                                                                                            past_pomodoros:
                                                                                                past,
                                                                                            active_pomodoro_jointime:
                                                                                                join,
                                                                                            parent,
                                                                                            category,
                                                                                            date_added:
                                                                                                date
                                                                                                    as u64,
                                                                                            order,
                                                                                        },
                                                                                        p19,
                                                                                    ),
                                                                                ),
                                                                            },
                                                                        },
                                                                    },
                                                                },
                                                            },
                                                        },
                                                    },
                                                },
                                            },
                                        },
                                    },
                                },
                            },
                        },
                    },
                },
            },
        },
    }
}

/// Reading the rest of a stored task list, after an item.
pub open spec fn spec_parse_task_tail(s: Seq<char>, pos: int) -> Option<(Seq<TaskView>, int)>
    decreases s.len() - pos,
{
    if pos < 0 || pos >= s.len() {
        None
    } else if s[pos] == ']' {
        Some((Seq::empty(), pos + 1))
    } else if s[pos] == ',' {
        match spec_parse_task(s, pos + 1) {
            Some((t, e)) => if e <= pos + 1 || e > s.len() {
                None
            } else {
                match spec_parse_task_tail(s, e) {
                    Some((ts, e2)) => Some((seq![t] + ts, e2)),
                    None => None,
                }
            },
            None => None,
        }
    } else {
        None
    }
}

/// Reading a stored task list.
pub open spec fn spec_parse_task_list(s: Seq<char>, pos: int) -> Option<(Seq<TaskView>, int)> {
    if 0 <= pos < s.len() && s[pos] == '[' {
        if pos + 1 < s.len() && s[pos + 1] == ']' {
            Some((Seq::empty(), pos + 2))
        } else {
            match spec_parse_task(s, pos + 1) {
                Some((t, e)) => if e <= pos + 1 || e > s.len() {
                    None
                } else {
                    match spec_parse_task_tail(s, e) {
                        Some((ts, e2)) => Some((seq![t] + ts, e2)),
                        None => None,
                    }
                },
                None => None,
            }
        }
    } else {
        None
    }
}

/// Reading a stored category record.
pub open spec fn spec_parse_category(s: Seq<char>, pos: int) -> Option<(CategoryView, int)> {
    match spec_parse_lit(s, pos, "{\"id\":"@) {
        None => None,
        Some(p1) => match spec_parse_u32(s, p1) {
            None => None,
            Some((id, p2)) => match spec_parse_lit(s, p2, ",\"name\":"@) {
                None => None,
                Some(p3) => match spec_parse_string(s, p3) {
                    None => None,
                    Some((name, p4)) => match spec_parse_lit(s, p4, ",\"hotkey\":"@) {
                        None => None,
                        Some(p5) => match spec_parse_hotkey(s, p5) {
                            None => None,
                            Some((hotkey, p6)) => match spec_parse_lit(s, p6, ",\"visible\":"@) {
                                None => None,
                                Some(p7) => match spec_parse_bool(s, p7) {
                                    None => None,
                                    Some((visible, p8)) => match spec_parse_lit(s, p8, "}"@) {
                                        None => None,
                                        Some(p9) => Some(
                                            (CategoryView { id, name, hotkey, visible }, p9),
                                        ),
                                    },
                                },
                            },
                        },
                    },
                },
            },
        },
    }
}

/// Reading the rest of a stored category list, after an item.
pub open spec fn spec_parse_cat_tail(s: Seq<char>, pos: int) -> Option<(Seq<CategoryView>, int)>
    decreases s.len() - pos,
{
    if pos < 0 || pos >= s.len() {
        None
    } else if s[pos] == ']' {
        Some((Seq::empty(), pos + 1))
    } else if s[pos] == ',' {
        match spec_parse_category(s, pos + 1) {
            Some((c, e)) => if e <= pos + 1 || e > s.len() {
                None
            } else {
                match spec_parse_cat_tail(s, e) {
                    Some((cs, e2)) => Some((seq![c] + cs, e2)),
                    None => None,
                }
            },
            None => None,
        }
    } else {
        None
    }
}

/// Reading a stored category list.
pub open spec fn spec_parse_cat_list(s: Seq<char>, pos: int) -> Option<(Seq<CategoryView>, int)> {
    if 0 <= pos < s.len() && s[pos] == '[' {
        if pos + 1 < s.len() && s[pos + 1] == ']' {
            Some((Seq::empty(), pos + 2))
        } else {
            match spec_parse_category(s, pos + 1) {
                Some((c, e)) => if e <= pos + 1 || e > s.len() {
                    None
                } else {
                    match spec_parse_cat_tail(s, e) {
                        Some((cs, e2)) => Some((seq![c] + cs, e2)),
                        None => None,
                    }
                },
                None => None,
            }
        }
    } else {
        None
    }
}

/// Reading a stored aggregate.
pub open spec fn spec_parse_document(s: Seq<char>, pos: int) -> Option<(DatabaseView, int)> {
    match spec_parse_lit(s, pos, "{\"tasks\":"@) {
        None => None,
        Some(p1) => match spec_parse_task_list(s, p1) {
            None => None,
            Some((tasks, p2)) => match spec_parse_lit(s, p2, ",\"categories\":"@) {
                None => None,
                Some(p3) => match spec_parse_cat_list(s, p3) {
                    None => None,
                    Some((categories, p4)) => match spec_parse_lit(
                        s,
                        p4,
                        ",\"pomodoro_duration_minutes\":"@,
                    ) {
                        None => None,
                        Some(p5) => match spec_parse_u32(s, p5) {
                            None => None,
                            Some((dur, p6)) => match spec_parse_lit(
                                s,
                                p6,
                                ",\"active_pomodoro_starttime\":"@,
                            ) {
                                None => None,
                                Some(p7) => match spec_parse_opt_u64(s, p7) {
                                    None => None,
                                    Some((start, p8)) => match spec_parse_lit(
                                        s,
                                        p8,
                                        ",\"default_category_id\":"@,
                                    ) {
                                        None => None,
                                        Some(p9) => match spec_parse_u32(s, p9) {
                                            None => None,
                                            Some((default_id, p10)) => match spec_parse_lit(
                                                s,
                                                p10,
                                                "}"@,
                                            ) {
                                                None => None,
                                                Some(p11) => Some(
                                                    (
                                                        DatabaseView {
                                                            tasks,
                                                            categories,
                                                            pomodoro_duration_minutes: dur,
                                                            active_pomodoro_starttime: start,
                                                            default_category_id: default_id,
                                                        },
                                                        p11,
                                                    ),
                                                ),
                                            },
                                        },
                                    },
                                },
                            },
                        },
                    },
                },
            },
        },
    }
}

/// Reading a whole stored text: the aggregate it holds, provided nothing
/// follows it; any mismatch reads as nothing.
pub open spec fn spec_load(s: Seq<char>) -> Option<DatabaseView> {
    match spec_parse_document(s, 0) {
        Some((d, e)) => if e == s.len() {
            Some(d)
        } else {
            None
        },
        None => None,
    }
}

} // verus!

verus! {

/// Concatenation of character sequences is associative.
proof fn lemma_add_assoc(a: Seq<char>, b: Seq<char>, c: Seq<char>)
    ensures
        (a + b) + c == a + (b + c),
{
    assert((a + b) + c =~= a + (b + c));
}

/// Appends the stored form of a task record.
fn write_task(out: &mut String, t: &Task)
    ensures
        final(out)@ == old(out)@ + ser_task(t@),
{
    let ghost q1 = "{\"id\":"@;
    let ghost q2 = dec_rep(t@.id as nat);
    let ghost q3 = ",\"description\":"@;
    let ghost q4 = ser_string(t@.description);
    let ghost q5 = ",\"done\":"@;
    let ghost q6 = ser_bool(t@.done);
    let ghost q7 = ",\"past_pomodoros\":"@;
    let ghost q8 = ser_pom_list(t@.past_pomodoros);
    let ghost q9 = ",\"active_pomodoro_jointime\":"@;
    let ghost q10 = ser_opt_u64(t@.active_pomodoro_jointime);
    let ghost q11 = ",\"parent\":"@;
    let ghost q12 = ser_opt_u32(t@.parent);
    let ghost q13 = ",\"category\":"@;
    let ghost q14 = dec_rep(t@.category as nat);
    let ghost q15 = ",\"date_added\":"@;
    let ghost q16 = dec_rep(t@.date_added as nat);
    let ghost q17 = ",\"order\":"@;
    let ghost q18 = dec_rep(t@.order as nat);
    let ghost q19 = seq!['}'];
    let mut buf = String::new();
    buf.append("{\"id\":");
    let s1 = u64_to_string(t.id as u64);
    buf.append(s1.as_str());
    buf.append(",\"description\":");
    write_string(&mut buf, t.description.as_str());
    buf.append(",\"done\":");
    write_bool(&mut buf, t.done);
    buf.append(",\"past_pomodoros\":");
    write_pom_list(&mut buf, &t.past_pomodoros);
    buf.append(",\"active_pomodoro_jointime\":");
    write_opt_u64(&mut buf, t.active_pomodoro_jointime);
    buf.append(",\"parent\":");
    write_opt_u32(&mut buf, t.parent);
    buf.append(",\"category\":");
    let s2 = u64_to_string(t.category as u64);
    buf.append(s2.as_str());
    buf.append(",\"date_added\":");
    let s3 = u64_to_string(t.date_added);
    buf.append(s3.as_str());
    buf.append(",\"order\":");
    let s4 = u64_to_string(t.order as u64);
    buf.append(s4.as_str());
    buf.append("}");
    proof {
        reveal_strlit("}");
        let r19 = q19;
        let r18 = q18 + r19;
        let r17 = q17 + r18;
        let r16 = q16 + r17;
        let r15 = q15 + r16;
        let r14 = q14 + r15;
        let r13 = q13 + r14;
        let r12 = q12 + r13;
        let r11 = q11 + r12;
        let r10 = q10 + r11;
        let r9 = q9 + r10;
        let r8 = q8 + r9;
        let r7 = q7 + r8;
        let r6 = q6 + r7;
        let r5 = q5 + r6;
        let r4 = q4 + r5;
        let r3 = q3 + r4;
        let r2 = q2 + r3;
        assert(ser_task(t@) == q1 + r2);
        let acc1 = q1;
        assert(Seq::<char>::empty() + q1 =~= q1);
        lemma_add_assoc(acc1, q2, r3);
        let acc2 = acc1 + q2;
        lemma_add_assoc(acc2, q3, r4);
        let acc3 = acc2 + q3;
        lemma_add_assoc(acc3, q4, r5);
        let acc4 = acc3 + q4;
        lemma_add_assoc(acc4, q5, r6);
        let acc5 = acc4 + q5;
        lemma_add_assoc(acc5, q6, r7);
        let acc6 = acc5 + q6;
        lemma_add_assoc(acc6, q7, r8);
        let acc7 = acc6 + q7;
        lemma_add_assoc(acc7, q8, r9);
        let acc8 = acc7 + q8;
        lemma_add_assoc(acc8, q9, r10);
        let acc9 = acc8 + q9;
        lemma_add_assoc(acc9, q10, r11);
        let acc10 = acc9 + q10;
        lemma_add_assoc(acc10, q11, r12);
        let acc11 = acc10 + q11;
        lemma_add_assoc(acc11, q12, r13);
        let acc12 = acc11 + q12;
        lemma_add_assoc(acc12, q13, r14);
        let acc13 = acc12 + q13;
        lemma_add_assoc(acc13, q14, r15);
        let acc14 = acc13 + q14;
        lemma_add_assoc(acc14, q15, r16);
        let acc15 = acc14 + q15;
        lemma_add_assoc(acc15, q16, r17);
        let acc16 = acc15 + q16;
        lemma_add_assoc(acc16, q17, r18);
        let acc17 = acc16 + q17;
        lemma_add_assoc(acc17, q18, r19);
        let acc18 = acc17 + q18;
        assert(ser_task(t@) == acc18 + q19);
        assert(buf@ == acc18 + q19);
    }
    out.append(buf.as_str());
}

/// Appends a stored task list.
fn write_task_list(out: &mut String, ts: &Vec<Task>)
    ensures
        final(out)@ == old(out)@ + ser_task_list(task_views(ts@)),
{
    proof {
        reveal_strlit("[");
        reveal_strlit("]");
        reveal_strlit(",");
    }
    out.append("[");
    if ts.len() == 0 {
        out.append("]");
        proof {
            assert(out@ =~= old(out)@ + ser_task_list(task_views(ts@)));
        }
        return ;
    }
    proof {
        assert(task_views(ts@)[0] == ts@[0]@);
    }
    write_task(out, &ts[0]);
    let mut i: usize = 1;
    proof {
        assert(task_views(ts@).drop_first() =~= task_views(ts@).skip(1));
    }
    while i < ts.len()
        invariant
            1 <= i <= ts@.len(),
            old(out)@ + ser_task_list(task_views(ts@)) == out@ + ser_task_tail(
                task_views(ts@).skip(i as int),
            ),
        decreases ts@.len() - i,
    {
        proof {
            reveal_strlit(",");
            assert(task_views(ts@).skip(i as int)[0] == task_views(ts@)[i as int]);
            assert(task_views(ts@)[i as int] == ts@[i as int]@);
            assert(task_views(ts@).skip(i as int).drop_first() =~= task_views(ts@).skip(
                i as int + 1,
            ));
        }
        out.append(",");
        write_task(out, &ts[i]);
        proof {
            assert(old(out)@ + ser_task_list(task_views(ts@)) =~= out@ + ser_task_tail(
                task_views(ts@).skip(i as int + 1),
            ));
        }
        i = i + 1;
    }
    out.append("]");
    proof {
        assert(task_views(ts@).skip(ts@.len() as int) =~= Seq::<TaskView>::empty());
        assert(old(out)@ + ser_task_list(task_views(ts@)) =~= out@);
    }
}

/// Appends the stored form of a category record.
fn write_category(out: &mut String, c: &Category)
    ensures
        final(out)@ == old(out)@ + ser_category(c@),
{
    out.append("{\"id\":");
    let s1 = u64_to_string(c.id as u64);
    out.append(s1.as_str());
    out.append(",\"name\":");
    write_string(out, c.name.as_str());
    out.append(",\"hotkey\":");
    write_hotkey(out, c.hotkey);
    out.append(",\"visible\":");
    write_bool(out, c.visible);
    out.append("}");
    proof {
        reveal_strlit("}");
        assert(out@ =~= old(out)@ + ser_category(c@));
    }
}

/// Appends a stored category list.
fn write_cat_list(out: &mut String, cs: &Vec<Category>)
    ensures
        final(out)@ == old(out)@ + ser_cat_list(cat_views(cs@)),
{
    proof {
        reveal_strlit("[");
        reveal_strlit("]");
        reveal_strlit(",");
    }
    out.append("[");
    if cs.len() == 0 {
        out.append("]");
        proof {
            assert(out@ =~= old(out)@ + ser_cat_list(cat_views(cs@)));
        }
        return ;
    }
    proof {
        assert(cat_views(cs@)[0] == cs@[0]@);
    }
    write_category(out, &cs[0]);
    let mut i: usize = 1;
    proof {
        assert(cat_views(cs@).drop_first() =~= cat_views(cs@).skip(1));
    }
    while i < cs.len()
        invariant
            1 <= i <= cs@.len(),
            old(out)@ + ser_cat_list(cat_views(cs@)) == out@ + ser_cat_tail(
                cat_views(cs@).skip(i as int),
            ),
        decreases cs@.len() - i,
    {
        proof {
            reveal_strlit(",");
            assert(cat_views(cs@).skip(i as int)[0] == cat_views(cs@)[i as int]);
            assert(cat_views(cs@)[i as int] == cs@[i as int]@);
            assert(cat_views(cs@).skip(i as int).drop_first() =~= cat_views(cs@).skip(
                i as int + 1,
            ));
        }
        out.append(",");
        write_category(out, &cs[i]);
        proof {
            assert(old(out)@ + ser_cat_list(cat_views(cs@)) =~= out@ + ser_cat_tail(
                cat_views(cs@).skip(i as int + 1),
            ));
        }
        i = i + 1;
    }
    out.append("]");
    proof {
        assert(cat_views(cs@).skip(cs@.len() as int) =~= Seq::<CategoryView>::empty());
        assert(old(out)@ + ser_cat_list(cat_views(cs@)) =~= out@);
    }
}

impl Database {
    /// Serializes the aggregate deterministically.
    pub fn save(&self) -> (r: String)
        ensures
            r@ == ser_document(self@),
    {
        let ghost q1 = "{\"tasks\":"@;
        let ghost q2 = ser_task_list(self@.tasks);
        let ghost q3 = ",\"categories\":"@;
        let ghost q4 = ser_cat_list(self@.categories);
        let ghost q5 = ",\"pomodoro_duration_minutes\":"@;
        let ghost q6 = dec_rep(self@.pomodoro_duration_minutes as nat);
        let ghost q7 = ",\"active_pomodoro_starttime\":"@;
        let ghost q8 = ser_opt_u64(self@.active_pomodoro_starttime);
        let ghost q9 = ",\"default_category_id\":"@;
        let ghost q10 = dec_rep(self@.default_category_id as nat);
        let ghost q11 = seq!['}'];
        let mut out = String::new();
        out.append("{\"tasks\":");
        write_task_list(&mut out, &self.tasks);
        out.append(",\"categories\":");
        write_cat_list(&mut out, &self.categories);
        out.append(",\"pomodoro_duration_minutes\":");
        let s1 = u64_to_string(self.pomodoro_duration_minutes as u64);
        out.append(s1.as_str());
        out.append(",\"active_pomodoro_starttime\":");
        write_opt_u64(&mut out, self.active_pomodoro_starttime);
        out.append(",\"default_category_id\":");
        let s2 = u64_to_string(self.default_category_id as u64);
        out.append(s2.as_str());
        out.append("}");
        proof {
            reveal_strlit("}");
            let r11 = q11;
            let r10 = q10 + r11;
            let r9 = q9 + r10;
            let r8 = q8 + r9;
            let r7 = q7 + r8;
            let r6 = q6 + r7;
            let r5 = q5 + r6;
            let r4 = q4 + r5;
            let r3 = q3 + r4;
            let r2 = q2 + r3;
            assert(ser_document(self@) == q1 + r2);
            let acc1 = q1;
            assert(Seq::<char>::empty() + q1 =~= q1);
            lemma_add_assoc(acc1, q2, r3);
            let acc2 = acc1 + q2;
            lemma_add_assoc(acc2, q3, r4);
            let acc3 = acc2 + q3;
            lemma_add_assoc(acc3, q4, r5);
            let acc4 = acc3 + q4;
            lemma_add_assoc(acc4, q5, r6);
            let acc5 = acc4 + q5;
            lemma_add_assoc(acc5, q6, r7);
            let acc6 = acc5 + q6;
            lemma_add_assoc(acc6, q7, r8);
            let acc7 = acc6 + q7;
            lemma_add_assoc(acc7, q8, r9);
            let acc8 = acc7 + q8;
            lemma_add_assoc(acc8, q9, r10);
            let acc9 = acc8 + q9;
            lemma_add_assoc(acc9, q10, r11);
            let acc10 = acc9 + q10;
            assert(ser_document(self@) == acc10 + q11);
            assert(out@ == acc10 + q11);
        }
        out
    }
}

/// Reads a stored task record at `pos`.
fn p_task(s: &Vec<char>, pos: usize) -> (r: Option<(Task, usize)>)
    ensures
        match r {
            Some((v, e)) => spec_parse_task(s@, pos as int) == Some((v@, e as int)) && pos < e
                <= s@.len(),
            None => spec_parse_task(s@, pos as int) is None,
        },
{
    let p1 = match p_lit(s, pos, "{\"id\":") {
        Some(e) => e,
        None => {
            return None;
        },
    };
    let (id, p2) = match p_u32(s, p1) {
        Some(v) => v,
        None => {
            return None;
        },
    };
    let p3 = match p_lit(s, p2, ",\"description\":") {
        Some(e) => e,
        None => {
            return None;
        },
    };
    let (description, p4) = match p_string(s, p3) {
        Some(v) => v,
        None => {
            return None;
        },
    };
    let p5 = match p_lit(s, p4, ",\"done\":") {
        Some(e) => e,
        None => {
            return None;
        },
    };
    let (done, p6) = match p_bool(s, p5) {
        Some(v) => v,
        None => {
            return None;
        },
    };
    let p7 = match p_lit(s, p6, ",\"past_pomodoros\":") {
        Some(e) => e,
        None => {
            return None;
        },
    };
    let (past, p8) = match p_pom_list(s, p7) {
        Some(v) => v,
        None => {
            return None;
        },
    };
    let p9 = match p_lit(s, p8, ",\"active_pomodoro_jointime\":") {
        Some(e) => e,
        None => {
            return None;
        },
    };
    let (join, p10) = match p_opt_u64(s, p9) {
        Some(v) => v,
        None => {
            return None;
        },
    };
    let p11 = match p_lit(s, p10, ",\"parent\":") {
        Some(e) => e,
        None => {
            return None;
        },
    };
    let (parent, p12) = match p_opt_u32(s, p11) {
        Some(v) => v,
        None => {
            return None;
        },
    };
    let p13 = match p_lit(s, p12, ",\"category\":") {
        Some(e) => e,
        None => {
            return None;
        },
    };
    let (category, p14) = match p_u32(s, p13) {
        Some(v) => v,
        None => {
            return None;
        },
    };
    let p15 = match p_lit(s, p14, ",\"date_added\":") {
        Some(e) => e,
        None => {
            return None;
        },
    };
    let (date, p16) = match parse_u64(s, p15) {
        Some(v) => v,
        None => {
            return None;
        },
    };
    let p17 = match p_lit(s, p16, ",\"order\":") {
        Some(e) => e,
        None => {
            return None;
        },
    };
    let (order, p18) = match p_u32(s, p17) {
        Some(v) => v,
        None => {
            return None;
        },
    };
    let p19 = match p_lit(s, p18, "}") {
        Some(e) => e,
        None => {
            return None;
        },
    };
    let task = Task {
        id,
        description,
        done,
        past_pomodoros: past,
        active_pomodoro_jointime: join,
        parent,
        category,
        date_added: date,
        order,
    };
    proof {
        reveal_strlit("{\"id\":");
        assert(task@ =~= spec_parse_task(s@, pos as int).unwrap().0);
    }
    Some((task, p19))
}

/// Reads the rest of a stored task list at `pos`.
fn p_task_tail(s: &Vec<char>, pos: usize) -> (r: Option<(Vec<Task>, usize)>)
    ensures
        match r {
            Some((v, e)) => spec_parse_task_tail(s@, pos as int) == Some(
                (task_views(v@), e as int),
            ) && pos < e <= s@.len(),
            None => spec_parse_task_tail(s@, pos as int) is None,
        },
    decreases s@.len() - pos,
{
    if pos >= s.len() {
        return None;
    }
    if s[pos] == ']' {
        let empty: Vec<Task> = Vec::new();
        proof {
            assert(task_views(empty@) =~= Seq::<TaskView>::empty());
        }
        return Some((empty, pos + 1));
    }
    if s[pos] != ',' {
        return None;
    }
    let (t, e) = match p_task(s, pos + 1) {
        Some(v) => v,
        None => {
            return None;
        },
    };
    match p_task_tail(s, e) {
        Some((mut ts, e2)) => {
            let ghost tailviews = task_views(ts@);
            ts.insert(0, t);
            proof {
                assert forall|k: int| 0 <= k < ts@.len() implies #[trigger] task_views(ts@)[k] == (
                seq![t@] + tailviews)[k] by {
                    if k == 0 {
                        assert(ts@[0] == t);
                    } else {
                        assert(ts@[k] == ts@.subrange(1, ts@.len() as int)[k - 1]);
                    }
                }
                assert(task_views(ts@) =~= seq![t@] + tailviews);
            }
            Some((ts, e2))
        },
        None => None,
    }
}

/// Reads a stored task list at `pos`.
fn p_task_list(s: &Vec<char>, pos: usize) -> (r: Option<(Vec<Task>, usize)>)
    ensures
        match r {
            Some((v, e)) => spec_parse_task_list(s@, pos as int) == Some(
                (task_views(v@), e as int),
            ) && pos < e <= s@.len(),
            None => spec_parse_task_list(s@, pos as int) is None,
        },
{
    if pos >= s.len() || s[pos] != '[' {
        return None;
    }
    if pos + 1 < s.len() && s[pos + 1] == ']' {
        let empty: Vec<Task> = Vec::new();
        proof {
            assert(task_views(empty@) =~= Seq::<TaskView>::empty());
        }
        return Some((empty, pos + 2));
    }
    let (t, e) = match p_task(s, pos + 1) {
        Some(v) => v,
        None => {
            return None;
        },
    };
    match p_task_tail(s, e) {
        Some((mut ts, e2)) => {
            let ghost tailviews = task_views(ts@);
            ts.insert(0, t);
            proof {
                assert forall|k: int| 0 <= k < ts@.len() implies #[trigger] task_views(ts@)[k] == (
                seq![t@] + tailviews)[k] by {
                    if k == 0 {
                        assert(ts@[0] == t);
                    } else {
                        assert(ts@[k] == ts@.subrange(1, ts@.len() as int)[k - 1]);
                    }
                }
                assert(task_views(ts@) =~= seq![t@] + tailviews);
            }
            Some((ts, e2))
        },
        None => None,
    }
}

/// Reads a stored category record at `pos`.
fn p_category(s: &Vec<char>, pos: usize) -> (r: Option<(Category, usize)>)
    ensures
        match r {
            Some((v, e)) => spec_parse_category(s@, pos as int) == Some((v@, e as int)) && pos < e
                <= s@.len(),
            None => spec_parse_category(s@, pos as int) is None,
        },
{
    let p1 = match p_lit(s, pos, "{\"id\":") {
        Some(e) => e,
        None => {
            return None;
        },
    };
    let (id, p2) = match p_u32(s, p1) {
        Some(v) => v,
        None => {
            return None;
        },
    };
    let p3 = match p_lit(s, p2, ",\"name\":") {
        Some(e) => e,
        None => {
            return None;
        },
    };
    let (name, p4) = match p_string(s, p3) {
        Some(v) => v,
        None => {
            return None;
        },
    };
    let p5 = match p_lit(s, p4, ",\"hotkey\":") {
        Some(e) => e,
        None => {
            return None;
        },
    };
    let (hotkey, p6) = match p_hotkey(s, p5) {
        Some(v) => v,
        None => {
            return None;
        },
    };
    let p7 = match p_lit(s, p6, ",\"visible\":") {
        Some(e) => e,
        None => {
            return None;
        },
    };
    let (visible, p8) = match p_bool(s, p7) {
        Some(v) => v,
        None => {
            return None;
        },
    };
    let p9 = match p_lit(s, p8, "}") {
        Some(e) => e,
        None => {
            return None;
        },
    };
    let category = Category { id, name, hotkey, visible };
    proof {
        reveal_strlit("{\"id\":");
        assert(category@ =~= spec_parse_category(s@, pos as int).unwrap().0);
    }
    Some((category, p9))
}

/// Reads the rest of a stored category list at `pos`.
fn p_cat_tail(s: &Vec<char>, pos: usize) -> (r: Option<(Vec<Category>, usize)>)
    ensures
        match r {
            Some((v, e)) => spec_parse_cat_tail(s@, pos as int) == Some(
                (cat_views(v@), e as int),
            ) && pos < e <= s@.len(),
            None => spec_parse_cat_tail(s@, pos as int) is None,
        },
    decreases s@.len() - pos,
{
    if pos >= s.len() {
        return None;
    }
    if s[pos] == ']' {
        let empty: Vec<Category> = Vec::new();
        proof {
            assert(cat_views(empty@) =~= Seq::<CategoryView>::empty());
        }
        return Some((empty, pos + 1));
    }
    if s[pos] != ',' {
        return None;
    }
    let (c, e) = match p_category(s, pos + 1) {
        Some(v) => v,
        None => {
            return None;
        },
    };
    match p_cat_tail(s, e) {
        Some((mut cs, e2)) => {
            let ghost tailviews = cat_views(cs@);
            cs.insert(0, c);
            proof {
                assert forall|k: int| 0 <= k < cs@.len() implies #[trigger] cat_views(cs@)[k] == (
                seq![c@] + tailviews)[k] by {
                    if k == 0 {
                        assert(cs@[0] == c);
                    } else {
                        assert(cs@[k] == cs@.subrange(1, cs@.len() as int)[k - 1]);
                    }
                }
                assert(cat_views(cs@) =~= seq![c@] + tailviews);
            }
            Some((cs, e2))
        },
        None => None,
    }
}

/// Reads a stored category list at `pos`.
fn p_cat_list(s: &Vec<char>, pos: usize) -> (r: Option<(Vec<Category>, usize)>)
    ensures
        match r {
            Some((v, e)) => spec_parse_cat_list(s@, pos as int) == Some(
                (cat_views(v@), e as int),
            ) && pos < e <= s@.len(),
            None => spec_parse_cat_list(s@, pos as int) is None,
        },
{
    if pos >= s.len() || s[pos] != '[' {
        return None;
    }
    if pos + 1 < s.len() && s[pos + 1] == ']' {
        let empty: Vec<Category> = Vec::new();
        proof {
            assert(cat_views(empty@) =~= Seq::<CategoryView>::empty());
        }
        return Some((empty, pos + 2));
    }
    let (c, e) = match p_category(s, pos + 1) {
        Some(v) => v,
        None => {
            return None;
        },
    };
    match p_cat_tail(s, e) {
        Some((mut cs, e2)) => {
            let ghost tailviews = cat_views(cs@);
            cs.insert(0, c);
            proof {
                assert forall|k: int| 0 <= k < cs@.len() implies #[trigger] cat_views(cs@)[k] == (
                seq![c@] + tailviews)[k] by {
                    if k == 0 {
                        assert(cs@[0] == c);
                    } else {
                        assert(cs@[k] == cs@.subrange(1, cs@.len() as int)[k - 1]);
                    }
                }
                assert(cat_views(cs@) =~= seq![c@] + tailviews);
            }
            Some((cs, e2))
        },
        None => None,
    }
}

/// Reads a stored aggregate from a whole text. Any mismatch — wrong shape,
/// numbers out of range, trailing content — reads as nothing, so a missing
/// file and a malformed file stay distinguishable to the host.
pub fn load(text: &str) -> (r: Option<Database>)
    ensures
        match r {
            Some(db) => spec_load(text@) == Some(db@),
            None => spec_load(text@) is None,
        },
{
    let s = chars_of(text);
    let p1 = match p_lit(&s, 0, "{\"tasks\":") {
        Some(e) => e,
        None => {
            return None;
        },
    };
    let (tasks, p2) = match p_task_list(&s, p1) {
        Some(v) => v,
        None => {
            return None;
        },
    };
    let p3 = match p_lit(&s, p2, ",\"categories\":") {
        Some(e) => e,
        None => {
            return None;
        },
    };
    let (categories, p4) = match p_cat_list(&s, p3) {
        Some(v) => v,
        None => {
            return None;
        },
    };
    let p5 = match p_lit(&s, p4, ",\"pomodoro_duration_minutes\":") {
        Some(e) => e,
        None => {
            return None;
        },
    };
    let (dur, p6) = match p_u32(&s, p5) {
        Some(v) => v,
        None => {
            return None;
        },
    };
    let p7 = match p_lit(&s, p6, ",\"active_pomodoro_starttime\":") {
        Some(e) => e,
        None => {
            return None;
        },
    };
    let (start, p8) = match p_opt_u64(&s, p7) {
        Some(v) => v,
        None => {
            return None;
        },
    };
    let p9 = match p_lit(&s, p8, ",\"default_category_id\":") {
        Some(e) => e,
        None => {
            return None;
        },
    };
    let (default_id, p10) = match p_u32(&s, p9) {
        Some(v) => v,
        None => {
            return None;
        },
    };
    let p11 = match p_lit(&s, p10, "}") {
        Some(e) => e,
        None => {
            return None;
        },
    };
    if p11 != s.len() {
        return None;
    }
    let db = Database {
        tasks,
        categories,
        pomodoro_duration_minutes: dur,
        active_pomodoro_starttime: start,
        default_category_id: default_id,
    };
    proof {
        assert(db@ =~= spec_parse_document(text@, 0).unwrap().0);
    }
    Some(db)
}

} // verus!

verus! {

/// The boolean parser undoes the boolean serializer.
proof fn lemma_parse_bool_round(b: bool, s: Seq<char>, pos: int)
    requires
        0 <= pos,
        pos + ser_bool(b).len() <= s.len(),
        s.subrange(pos, pos + ser_bool(b).len()) == ser_bool(b),
    ensures
        spec_parse_bool(s, pos) == Some((b, pos + ser_bool(b).len())),
{
    reveal_strlit("true");
    reveal_strlit("false");
    if !b {
        lemma_window_first(s, pos, "false"@);
        lemma_lit_fails_at(s, pos, "true"@, 'f');
    }
}

/// The id parser reads back exactly a written id when something other than a
/// digit follows it.
proof fn lemma_parse_u32_here(n: u32, s: Seq<char>, pos: int)
    requires
        0 <= pos,
        pos + dec_rep(n as nat).len() < s.len(),
        s.subrange(pos, pos + dec_rep(n as nat).len()) == dec_rep(n as nat),
        !is_digit_char(s[pos + dec_rep(n as nat).len()]),
    ensures
        spec_parse_u32(s, pos) == Some((n, pos + dec_rep(n as nat).len())),
        spec_parse_lit(s, pos, "null"@) is None,
{
    assert(dec_rep((n as u64) as nat) == dec_rep(n as nat));
    lemma_parse_number_here(n as u64, s, pos);
}

/// The optional-number parser undoes its serializer.
proof fn lemma_parse_opt_u64_round(o: Option<u64>, s: Seq<char>, pos: int)
    requires
        0 <= pos,
        pos + ser_opt_u64(o).len() <= s.len(),
        s.subrange(pos, pos + ser_opt_u64(o).len()) == ser_opt_u64(o),
        o is Some ==> pos + ser_opt_u64(o).len() < s.len() && !is_digit_char(
            s[pos + ser_opt_u64(o).len()],
        ),
    ensures
        spec_parse_opt_u64(s, pos) == Some((o, pos + ser_opt_u64(o).len())),
{
    match o {
        None => {
        },
        Some(v) => {
            lemma_parse_number_here(v, s, pos);
        },
    }
}

/// The optional-id parser undoes its serializer.
proof fn lemma_parse_opt_u32_round(o: Option<u32>, s: Seq<char>, pos: int)
    requires
        0 <= pos,
        pos + ser_opt_u32(o).len() <= s.len(),
        s.subrange(pos, pos + ser_opt_u32(o).len()) == ser_opt_u32(o),
        o is Some ==> pos + ser_opt_u32(o).len() < s.len() && !is_digit_char(
            s[pos + ser_opt_u32(o).len()],
        ),
    ensures
        spec_parse_opt_u32(s, pos) == Some((o, pos + ser_opt_u32(o).len())),
{
    match o {
        None => {
        },
        Some(v) => {
            lemma_parse_u32_here(v, s, pos);
        },
    }
}

/// The hotkey parser undoes its serializer.
proof fn lemma_parse_hotkey_round(o: Option<char>, s: Seq<char>, pos: int)
    requires
        0 <= pos,
        pos + ser_hotkey(o).len() <= s.len(),
        s.subrange(pos, pos + ser_hotkey(o).len()) == ser_hotkey(o),
    ensures
        spec_parse_hotkey(s, pos) == Some((o, pos + ser_hotkey(o).len())),
{
    reveal_strlit("null");
    match o {
        None => {
        },
        Some(c) => {
            assert(seq![c].drop_first() =~= Seq::<char>::empty());
            assert(seq![c][0] == c);
            assert(esc(seq![c]) == esc_char(c) + esc(Seq::<char>::empty()));
            assert(esc(Seq::<char>::empty()) == Seq::<char>::empty());
            assert(esc_char(c) + Seq::<char>::empty() =~= esc_char(c));
            assert(ser_hotkey(o) == ser_string(seq![c]));
            lemma_window_first(s, pos, ser_hotkey(o));
            lemma_lit_fails_at(s, pos, "null"@, '"');
            lemma_parse_string_round(seq![c], s, pos);
        },
    }
}

/// Where each piece of a stored task record lies inside a text that holds
/// one.
#[verifier::rlimit(100)]
#[verifier::spinoff_prover]
proof fn lemma_task_windows(t: TaskView, s: Seq<char>, pos: int)
    requires
        0 <= pos,
        pos + ser_task(t).len() <= s.len(),
        s.subrange(pos, pos + ser_task(t).len()) == ser_task(t),
    ensures
        ({
            let q1 = "{\"id\":"@;
            let q2 = dec_rep(t.id as nat);
            let q3 = ",\"description\":"@;
            let q4 = ser_string(t.description);
            let q5 = ",\"done\":"@;
            let q6 = ser_bool(t.done);
            let q7 = ",\"past_pomodoros\":"@;
            let q8 = ser_pom_list(t.past_pomodoros);
            let q9 = ",\"active_pomodoro_jointime\":"@;
            let q10 = ser_opt_u64(t.active_pomodoro_jointime);
            let q11 = ",\"parent\":"@;
            let q12 = ser_opt_u32(t.parent);
            let q13 = ",\"category\":"@;
            let q14 = dec_rep(t.category as nat);
            let q15 = ",\"date_added\":"@;
            let q16 = dec_rep(t.date_added as nat);
            let q17 = ",\"order\":"@;
            let q18 = dec_rep(t.order as nat);
            let c1 = pos + q1.len();
            let c2 = c1 + q2.len();
            let c3 = c2 + q3.len();
            let c4 = c3 + q4.len();
            let c5 = c4 + q5.len();
            let c6 = c5 + q6.len();
            let c7 = c6 + q7.len();
            let c8 = c7 + q8.len();
            let c9 = c8 + q9.len();
            let c10 = c9 + q10.len();
            let c11 = c10 + q11.len();
            let c12 = c11 + q12.len();
            let c13 = c12 + q13.len();
            let c14 = c13 + q14.len();
            let c15 = c14 + q15.len();
            let c16 = c15 + q16.len();
            let c17 = c16 + q17.len();
            let c18 = c17 + q18.len();
            &&& s.subrange(pos, c1) == q1
            &&& s.subrange(c1, c2) == q2
            &&& s.subrange(c2, c3) == q3
            &&& s.subrange(c3, c4) == q4
            &&& s.subrange(c4, c5) == q5
            &&& s.subrange(c5, c6) == q6
            &&& s.subrange(c6, c7) == q7
            &&& s.subrange(c7, c8) == q8
            &&& s.subrange(c8, c9) == q9
            &&& s.subrange(c9, c10) == q10
            &&& s.subrange(c10, c11) == q11
            &&& s.subrange(c11, c12) == q12
            &&& s.subrange(c12, c13) == q13
            &&& s.subrange(c13, c14) == q14
            &&& s.subrange(c14, c15) == q15
            &&& s.subrange(c15, c16) == q16
            &&& s.subrange(c16, c17) == q17
            &&& s.subrange(c17, c18) == q18
            &&& s.subrange(c18, c18 + 1) == seq!['}']
            &&& c18 + 1 == pos + ser_task(t).len()
        }),
{
    let q1 = "{\"id\":"@;
    let q2 = dec_rep(t.id as nat);
    let q3 = ",\"description\":"@;
    let q4 = ser_string(t.description);
    let q5 = ",\"done\":"@;
    let q6 = ser_bool(t.done);
    let q7 = ",\"past_pomodoros\":"@;
    let q8 = ser_pom_list(t.past_pomodoros);
    let q9 = ",\"active_pomodoro_jointime\":"@;
    let q10 = ser_opt_u64(t.active_pomodoro_jointime);
    let q11 = ",\"parent\":"@;
    let q12 = ser_opt_u32(t.parent);
    let q13 = ",\"category\":"@;
    let q14 = dec_rep(t.category as nat);
    let q15 = ",\"date_added\":"@;
    let q16 = dec_rep(t.date_added as nat);
    let q17 = ",\"order\":"@;
    let q18 = dec_rep(t.order as nat);
    let q19 = seq!['}'];
    let r19 = q19;
    let r18 = q18 + r19;
    let r17 = q17 + r18;
    let r16 = q16 + r17;
    let r15 = q15 + r16;
    let r14 = q14 + r15;
    let r13 = q13 + r14;
    let r12 = q12 + r13;
    let r11 = q11 + r12;
    let r10 = q10 + r11;
    let r9 = q9 + r10;
    let r8 = q8 + r9;
    let r7 = q7 + r8;
    let r6 = q6 + r7;
    let r5 = q5 + r6;
    let r4 = q4 + r5;
    let r3 = q3 + r4;
    let r2 = q2 + r3;
    assert(ser_task(t) == q1 + r2);
    lemma_subrange_split(s, pos, q1, r2);
    let c1 = pos + q1.len();
    lemma_subrange_split(s, c1, q2, r3);
    let c2 = c1 + q2.len();
    lemma_subrange_split(s, c2, q3, r4);
    let c3 = c2 + q3.len();
    lemma_subrange_split(s, c3, q4, r5);
    let c4 = c3 + q4.len();
    lemma_subrange_split(s, c4, q5, r6);
    let c5 = c4 + q5.len();
    lemma_subrange_split(s, c5, q6, r7);
    let c6 = c5 + q6.len();
    lemma_subrange_split(s, c6, q7, r8);
    let c7 = c6 + q7.len();
    lemma_subrange_split(s, c7, q8, r9);
    let c8 = c7 + q8.len();
    lemma_subrange_split(s, c8, q9, r10);
    let c9 = c8 + q9.len();
    lemma_subrange_split(s, c9, q10, r11);
    let c10 = c9 + q10.len();
    lemma_subrange_split(s, c10, q11, r12);
    let c11 = c10 + q11.len();
    lemma_subrange_split(s, c11, q12, r13);
    let c12 = c11 + q12.len();
    lemma_subrange_split(s, c12, q13, r14);
    let c13 = c12 + q13.len();
    lemma_subrange_split(s, c13, q14, r15);
    let c14 = c13 + q14.len();
    lemma_subrange_split(s, c14, q15, r16);
    let c15 = c14 + q15.len();
    lemma_subrange_split(s, c15, q16, r17);
    let c16 = c15 + q16.len();
    lemma_subrange_split(s, c16, q17, r18);
    let c17 = c16 + q17.len();
    lemma_subrange_split(s, c17, q18, r19);
}

/// The task parser undoes the task serializer.
#[verifier::rlimit(100)]
#[verifier::spinoff_prover]
proof fn lemma_parse_task_round(t: TaskView, s: Seq<char>, pos: int)
    requires
        0 <= pos,
        pos + ser_task(t).len() <= s.len(),
        s.subrange(pos, pos + ser_task(t).len()) == ser_task(t),
    ensures
        spec_parse_task(s, pos) == Some((t, pos + ser_task(t).len())),
{
    reveal_strlit("{\"id\":");
    reveal_strlit(",\"description\":");
    reveal_strlit(",\"done\":");
    reveal_strlit(",\"past_pomodoros\":");
    reveal_strlit(",\"active_pomodoro_jointime\":");
    reveal_strlit(",\"parent\":");
    reveal_strlit(",\"category\":");
    reveal_strlit(",\"date_added\":");
    reveal_strlit(",\"order\":");
    reveal_strlit("}");
    lemma_task_windows(t, s, pos);
    let q1 = "{\"id\":"@;
    let q2 = dec_rep(t.id as nat);
    let q3 = ",\"description\":"@;
    let q4 = ser_string(t.description);
    let q5 = ",\"done\":"@;
    let q6 = ser_bool(t.done);
    let q7 = ",\"past_pomodoros\":"@;
    let q8 = ser_pom_list(t.past_pomodoros);
    let q9 = ",\"active_pomodoro_jointime\":"@;
    let q10 = ser_opt_u64(t.active_pomodoro_jointime);
    let q11 = ",\"parent\":"@;
    let q12 = ser_opt_u32(t.parent);
    let q13 = ",\"category\":"@;
    let q14 = dec_rep(t.category as nat);
    let q15 = ",\"date_added\":"@;
    let q16 = dec_rep(t.date_added as nat);
    let q17 = ",\"order\":"@;
    let q18 = dec_rep(t.order as nat);
    let c1 = pos + q1.len();
    let c2 = c1 + q2.len();
    let c3 = c2 + q3.len();
    let c4 = c3 + q4.len();
    let c5 = c4 + q5.len();
    let c6 = c5 + q6.len();
    let c7 = c6 + q7.len();
    let c8 = c7 + q8.len();
    let c9 = c8 + q9.len();
    let c10 = c9 + q10.len();
    let c11 = c10 + q11.len();
    let c12 = c11 + q12.len();
    let c13 = c12 + q13.len();
    let c14 = c13 + q14.len();
    let c15 = c14 + q15.len();
    let c16 = c15 + q16.len();
    let c17 = c16 + q17.len();
    let c18 = c17 + q18.len();
    lemma_window_first(s, c2, q3);
    lemma_window_first(s, c10, q11);
    lemma_window_first(s, c12, q13);
    lemma_window_first(s, c14, q15);
    lemma_window_first(s, c16, q17);
    lemma_window_first(s, c18, seq!['}']);
    assert("}"@ =~= seq!['}']);
    lemma_parse_u32_here(t.id, s, c1);
    lemma_parse_string_round(t.description, s, c3);
    lemma_parse_bool_round(t.done, s, c5);
    lemma_parse_pom_list_round(t.past_pomodoros, s, c7);
    lemma_parse_opt_u64_round(t.active_pomodoro_jointime, s, c9);
    lemma_parse_opt_u32_round(t.parent, s, c11);
    lemma_parse_u32_here(t.category, s, c13);
    lemma_parse_number_here(t.date_added, s, c15);
    lemma_parse_u32_here(t.order, s, c17);
    assert(spec_parse_lit(s, pos, q1) == Some(c1));
    assert(spec_parse_lit(s, c2, q3) == Some(c3));
    assert(spec_parse_lit(s, c4, q5) == Some(c5));
    assert(spec_parse_lit(s, c6, q7) == Some(c7));
    assert(spec_parse_lit(s, c8, q9) == Some(c9));
    assert(spec_parse_lit(s, c10, q11) == Some(c11));
    assert(spec_parse_lit(s, c12, q13) == Some(c13));
    assert(spec_parse_lit(s, c14, q15) == Some(c15));
    assert(spec_parse_lit(s, c16, q17) == Some(c17));
    assert(spec_parse_lit(s, c18, "}"@) == Some(c18 + 1));
    assert((TaskView {
        id: t.id,
        description: t.description,
        done: t.done,
        past_pomodoros: t.past_pomodoros,
        active_pomodoro_jointime: t.active_pomodoro_jointime,
        parent: t.parent,
        category: t.category,
        date_added: ((t.date_added as nat) as int) as u64,
        order: t.order,
    }) =~= t);
}

/// The task-list tail parser undoes the tail serializer.
#[verifier::rlimit(100)]
proof fn lemma_parse_task_tail_round(ts: Seq<TaskView>, s: Seq<char>, pos: int)
    requires
        0 <= pos,
        pos + ser_task_tail(ts).len() <= s.len(),
        s.subrange(pos, pos + ser_task_tail(ts).len()) == ser_task_tail(ts),
    ensures
        spec_parse_task_tail(s, pos) == Some((ts, pos + ser_task_tail(ts).len())),
    decreases ts.len(),
{
    if ts.len() == 0 {
        lemma_window_first(s, pos, seq![']']);
    } else {
        let item = ser_task(ts[0]);
        let rest = ser_task_tail(ts.drop_first());
        lemma_subrange_split(s, pos, seq![','], item + rest);
        lemma_window_first(s, pos, seq![',']);
        lemma_subrange_split(s, pos + 1, item, rest);
        lemma_parse_task_round(ts[0], s, pos + 1);
        lemma_parse_task_tail_round(ts.drop_first(), s, (pos + 1) + item.len());
        assert(item.len() >= 1) by {
            reveal_strlit("{\"id\":");
        }
        assert(rest.len() >= 1);
        assert(seq![ts[0]] + ts.drop_first() =~= ts);
    }
}

/// The task-list parser undoes the list serializer.
#[verifier::rlimit(100)]
proof fn lemma_parse_task_list_round(ts: Seq<TaskView>, s: Seq<char>, pos: int)
    requires
        0 <= pos,
        pos + ser_task_list(ts).len() <= s.len(),
        s.subrange(pos, pos + ser_task_list(ts).len()) == ser_task_list(ts),
    ensures
        spec_parse_task_list(s, pos) == Some((ts, pos + ser_task_list(ts).len())),
{
    if ts.len() == 0 {
        lemma_subrange_split(s, pos, seq!['['], seq![']']);
        lemma_window_first(s, pos, seq!['[']);
        lemma_window_first(s, pos + 1, seq![']']);
    } else {
        let item = ser_task(ts[0]);
        let rest = ser_task_tail(ts.drop_first());
        lemma_subrange_split(s, pos, seq!['['], item + rest);
        lemma_window_first(s, pos, seq!['[']);
        lemma_subrange_split(s, pos + 1, item, rest);
        lemma_parse_task_round(ts[0], s, pos + 1);
        lemma_parse_task_tail_round(ts.drop_first(), s, (pos + 1) + item.len());
        lemma_window_first(s, pos + 1, item);
        assert(item.len() >= 1 && item[0] == '{') by {
            reveal_strlit("{\"id\":");
        }
        assert(s[pos + 1] == '{');
        assert(rest.len() >= 1);
        assert(seq![ts[0]] + ts.drop_first() =~= ts);
    }
}

/// The category parser undoes the category serializer.
#[verifier::rlimit(100)]
#[verifier::spinoff_prover]
proof fn lemma_parse_category_round(c: CategoryView, s: Seq<char>, pos: int)
    requires
        0 <= pos,
        pos + ser_category(c).len() <= s.len(),
        s.subrange(pos, pos + ser_category(c).len()) == ser_category(c),
    ensures
        spec_parse_category(s, pos) == Some((c, pos + ser_category(c).len())),
{
    reveal_strlit("{\"id\":");
    reveal_strlit(",\"name\":");
    reveal_strlit(",\"hotkey\":");
    reveal_strlit(",\"visible\":");
    reveal_strlit("}");
    let q1 = "{\"id\":"@;
    let q2 = dec_rep(c.id as nat);
    let q3 = ",\"name\":"@;
    let q4 = ser_string(c.name);
    let q5 = ",\"hotkey\":"@;
    let q6 = ser_hotkey(c.hotkey);
    let q7 = ",\"visible\":"@;
    let q8 = ser_bool(c.visible);
    let q9 = seq!['}'];
    let r9 = q9;
    let r8 = q8 + r9;
    let r7 = q7 + r8;
    let r6 = q6 + r7;
    let r5 = q5 + r6;
    let r4 = q4 + r5;
    let r3 = q3 + r4;
    let r2 = q2 + r3;
    assert(ser_category(c) == q1 + r2);
    lemma_subrange_split(s, pos, q1, r2);
    let c1 = pos + q1.len();
    lemma_subrange_split(s, c1, q2, r3);
    let c2 = c1 + q2.len();
    lemma_subrange_split(s, c2, q3, r4);
    let c3 = c2 + q3.len();
    lemma_subrange_split(s, c3, q4, r5);
    let c4 = c3 + q4.len();
    lemma_subrange_split(s, c4, q5, r6);
    let c5 = c4 + q5.len();
    lemma_subrange_split(s, c5, q6, r7);
    let c6 = c5 + q6.len();
    lemma_subrange_split(s, c6, q7, r8);
    let c7 = c6 + q7.len();
    lemma_subrange_split(s, c7, q8, r9);
    let c8 = c7 + q8.len();
    lemma_window_first(s, c2, q3);
    lemma_window_first(s, c8, q9);
    assert("}"@ =~= seq!['}']);
    lemma_parse_u32_here(c.id, s, c1);
    lemma_parse_string_round(c.name, s, c3);
    lemma_parse_hotkey_round(c.hotkey, s, c5);
    lemma_parse_bool_round(c.visible, s, c7);
    assert(spec_parse_lit(s, pos, q1) == Some(c1));
    assert(spec_parse_lit(s, c2, q3) == Some(c3));
    assert(spec_parse_lit(s, c4, q5) == Some(c5));
    assert(spec_parse_lit(s, c6, q7) == Some(c7));
    assert(spec_parse_lit(s, c8, "}"@) == Some(c8 + 1));
    assert((CategoryView { id: c.id, name: c.name, hotkey: c.hotkey, visible: c.visible }) =~= c);
}

/// The category-list tail parser undoes the tail serializer.
#[verifier::rlimit(100)]
proof fn lemma_parse_cat_tail_round(cs: Seq<CategoryView>, s: Seq<char>, pos: int)
    requires
        0 <= pos,
        pos + ser_cat_tail(cs).len() <= s.len(),
        s.subrange(pos, pos + ser_cat_tail(cs).len()) == ser_cat_tail(cs),
    ensures
        spec_parse_cat_tail(s, pos) == Some((cs, pos + ser_cat_tail(cs).len())),
    decreases cs.len(),
{
    if cs.len() == 0 {
        lemma_window_first(s, pos, seq![']']);
    } else {
        let item = ser_category(cs[0]);
        let rest = ser_cat_tail(cs.drop_first());
        lemma_subrange_split(s, pos, seq![','], item + rest);
        lemma_window_first(s, pos, seq![',']);
        lemma_subrange_split(s, pos + 1, item, rest);
        lemma_parse_category_round(cs[0], s, pos + 1);
        lemma_parse_cat_tail_round(cs.drop_first(), s, (pos + 1) + item.len());
        assert(item.len() >= 1) by {
            reveal_strlit("{\"id\":");
        }
        assert(rest.len() >= 1);
        assert(seq![cs[0]] + cs.drop_first() =~= cs);
    }
}

/// The category-list parser undoes the list serializer.
#[verifier::rlimit(100)]
proof fn lemma_parse_cat_list_round(cs: Seq<CategoryView>, s: Seq<char>, pos: int)
    requires
        0 <= pos,
        pos + ser_cat_list(cs).len() <= s.len(),
        s.subrange(pos, pos + ser_cat_list(cs).len()) == ser_cat_list(cs),
    ensures
        spec_parse_cat_list(s, pos) == Some((cs, pos + ser_cat_list(cs).len())),
{
    if cs.len() == 0 {
        lemma_subrange_split(s, pos, seq!['['], seq![']']);
        lemma_window_first(s, pos, seq!['[']);
        lemma_window_first(s, pos + 1, seq![']']);
    } else {
        let item = ser_category(cs[0]);
        let rest = ser_cat_tail(cs.drop_first());
        lemma_subrange_split(s, pos, seq!['['], item + rest);
        lemma_window_first(s, pos, seq!['[']);
        lemma_subrange_split(s, pos + 1, item, rest);
        lemma_parse_category_round(cs[0], s, pos + 1);
        lemma_parse_cat_tail_round(cs.drop_first(), s, (pos + 1) + item.len());
        lemma_window_first(s, pos + 1, item);
        assert(item.len() >= 1 && item[0] == '{') by {
            reveal_strlit("{\"id\":");
        }
        assert(s[pos + 1] == '{');
        assert(rest.len() >= 1);
        assert(seq![cs[0]] + cs.drop_first() =~= cs);
    }
}

/// Where each piece of a stored aggregate lies inside a text that holds one.
#[verifier::rlimit(100)]
#[verifier::spinoff_prover]
proof fn lemma_document_windows(db: DatabaseView, s: Seq<char>, pos: int)
    requires
        0 <= pos,
        pos + ser_document(db).len() <= s.len(),
        s.subrange(pos, pos + ser_document(db).len()) == ser_document(db),
    ensures
        ({
            let q1 = "{\"tasks\":"@;
            let q2 = ser_task_list(db.tasks);
            let q3 = ",\"categories\":"@;
            let q4 = ser_cat_list(db.categories);
            let q5 = ",\"pomodoro_duration_minutes\":"@;
            let q6 = dec_rep(db.pomodoro_duration_minutes as nat);
            let q7 = ",\"active_pomodoro_starttime\":"@;
            let q8 = ser_opt_u64(db.active_pomodoro_starttime);
            let q9 = ",\"default_category_id\":"@;
            let q10 = dec_rep(db.default_category_id as nat);
            let c1 = pos + q1.len();
            let c2 = c1 + q2.len();
            let c3 = c2 + q3.len();
            let c4 = c3 + q4.len();
            let c5 = c4 + q5.len();
            let c6 = c5 + q6.len();
            let c7 = c6 + q7.len();
            let c8 = c7 + q8.len();
            let c9 = c8 + q9.len();
            let c10 = c9 + q10.len();
            &&& s.subrange(pos, c1) == q1
            &&& s.subrange(c1, c2) == q2
            &&& s.subrange(c2, c3) == q3
            &&& s.subrange(c3, c4) == q4
            &&& s.subrange(c4, c5) == q5
            &&& s.subrange(c5, c6) == q6
            &&& s.subrange(c6, c7) == q7
            &&& s.subrange(c7, c8) == q8
            &&& s.subrange(c8, c9) == q9
            &&& s.subrange(c9, c10) == q10
            &&& s.subrange(c10, c10 + 1) == seq!['}']
            &&& c10 + 1 == pos + ser_document(db).len()
        }),
{
    let q1 = "{\"tasks\":"@;
    let q2 = ser_task_list(db.tasks);
    let q3 = ",\"categories\":"@;
    let q4 = ser_cat_list(db.categories);
    let q5 = ",\"pomodoro_duration_minutes\":"@;
    let q6 = dec_rep(db.pomodoro_duration_minutes as nat);
    let q7 = ",\"active_pomodoro_starttime\":"@;
    let q8 = ser_opt_u64(db.active_pomodoro_starttime);
    let q9 = ",\"default_category_id\":"@;
    let q10 = dec_rep(db.default_category_id as nat);
    let q11 = seq!['}'];
    let r11 = q11;
    let r10 = q10 + r11;
    let r9 = q9 + r10;
    let r8 = q8 + r9;
    let r7 = q7 + r8;
    let r6 = q6 + r7;
    let r5 = q5 + r6;
    let r4 = q4 + r5;
    let r3 = q3 + r4;
    let r2 = q2 + r3;
    assert(ser_document(db) == q1 + r2);
    lemma_subrange_split(s, pos, q1, r2);
    let c1 = pos + q1.len();
    lemma_subrange_split(s, c1, q2, r3);
    let c2 = c1 + q2.len();
    lemma_subrange_split(s, c2, q3, r4);
    let c3 = c2 + q3.len();
    lemma_subrange_split(s, c3, q4, r5);
    let c4 = c3 + q4.len();
    lemma_subrange_split(s, c4, q5, r6);
    let c5 = c4 + q5.len();
    lemma_subrange_split(s, c5, q6, r7);
    let c6 = c5 + q6.len();
    lemma_subrange_split(s, c6, q7, r8);
    let c7 = c6 + q7.len();
    lemma_subrange_split(s, c7, q8, r9);
    let c8 = c7 + q8.len();
    lemma_subrange_split(s, c8, q9, r10);
    let c9 = c8 + q9.len();
    lemma_subrange_split(s, c9, q10, r11);
}

/// The document parser undoes the document serializer.
#[verifier::rlimit(100)]
#[verifier::spinoff_prover]
proof fn lemma_parse_document_round(db: DatabaseView, s: Seq<char>, pos: int)
    requires
        0 <= pos,
        pos + ser_document(db).len() <= s.len(),
        s.subrange(pos, pos + ser_document(db).len()) == ser_document(db),
    ensures
        spec_parse_document(s, pos) == Some((db, pos + ser_document(db).len())),
{
    reveal_strlit("{\"tasks\":");
    reveal_strlit(",\"categories\":");
    reveal_strlit(",\"pomodoro_duration_minutes\":");
    reveal_strlit(",\"active_pomodoro_starttime\":");
    reveal_strlit(",\"default_category_id\":");
    reveal_strlit("}");
    lemma_document_windows(db, s, pos);
    let q1 = "{\"tasks\":"@;
    let q2 = ser_task_list(db.tasks);
    let q3 = ",\"categories\":"@;
    let q4 = ser_cat_list(db.categories);
    let q5 = ",\"pomodoro_duration_minutes\":"@;
    let q6 = dec_rep(db.pomodoro_duration_minutes as nat);
    let q7 = ",\"active_pomodoro_starttime\":"@;
    let q8 = ser_opt_u64(db.active_pomodoro_starttime);
    let q9 = ",\"default_category_id\":"@;
    let q10 = dec_rep(db.default_category_id as nat);
    let c1 = pos + q1.len();
    let c2 = c1 + q2.len();
    let c3 = c2 + q3.len();
    let c4 = c3 + q4.len();
    let c5 = c4 + q5.len();
    let c6 = c5 + q6.len();
    let c7 = c6 + q7.len();
    let c8 = c7 + q8.len();
    let c9 = c8 + q9.len();
    let c10 = c9 + q10.len();
    lemma_window_first(s, c6, q7);
    lemma_window_first(s, c8, q9);
    lemma_window_first(s, c10, seq!['}']);
    assert("}"@ =~= seq!['}']);
    lemma_parse_task_list_round(db.tasks, s, c1);
    lemma_parse_cat_list_round(db.categories, s, c3);
    lemma_parse_u32_here(db.pomodoro_duration_minutes, s, c5);
    lemma_parse_opt_u64_round(db.active_pomodoro_starttime, s, c7);
    lemma_parse_u32_here(db.default_category_id, s, c9);
    assert(spec_parse_lit(s, pos, q1) == Some(c1));
    assert(spec_parse_lit(s, c2, q3) == Some(c3));
    assert(spec_parse_lit(s, c4, q5) == Some(c5));
    assert(spec_parse_lit(s, c6, q7) == Some(c7));
    assert(spec_parse_lit(s, c8, q9) == Some(c9));
    assert(spec_parse_lit(s, c10, "}"@) == Some(c10 + 1));
    assert((DatabaseView {
        tasks: db.tasks,
        categories: db.categories,
        pomodoro_duration_minutes: db.pomodoro_duration_minutes,
        active_pomodoro_starttime: db.active_pomodoro_starttime,
        default_category_id: db.default_category_id,
    }) =~= db);
}

/// Serializing an aggregate and reading the text back restores the aggregate
/// field for field, whatever it holds.
pub proof fn lemma_save_load_round_trip(db: DatabaseView)
    ensures
        spec_load(ser_document(db)) == Some(db),
{
    let s = ser_document(db);
    assert(s.subrange(0, s.len() as int) =~= s);
    lemma_parse_document_round(db, s, 0);
}

} // verus!
