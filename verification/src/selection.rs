//! Selection movement over a projected listing: the decisions the host makes
//! when the user walks the task or category table, on plain id lists.

use vstd::prelude::*;

verus! {

/// Index of an id in a listing, or -1 if absent.
pub open spec fn id_position(ids: Seq<u32>, id: u32) -> int
    decreases ids.len(),
{
    if ids.len() == 0 {
        -1
    } else if ids[0] == id {
        0
    } else {
        let r = id_position(ids.drop_first(), id);
        if r == -1 {
            -1
        } else {
            r + 1
        }
    }
}

/// The selection after moving up: the entry above the current one, the
/// current one when it is already at the top, nothing when the selection
/// vanished from the listing, and the bottom entry when nothing was selected
/// and the listing is not empty.
pub open spec fn select_previous_spec(ids: Seq<u32>, selected: Option<u32>) -> Option<u32> {
    match selected {
        Some(sel) => {
            let i = id_position(ids, sel);
            if i == -1 {
                None
            } else if i == 0 {
                Some(ids[0])
            } else {
                Some(ids[i - 1])
            }
        },
        None => if ids.len() > 0 {
            Some(ids[ids.len() - 1])
        } else {
            None
        },
    }
}

/// The selection after moving down, symmetrically; with nothing selected it
/// takes the top entry.
pub open spec fn select_next_spec(ids: Seq<u32>, selected: Option<u32>) -> Option<u32> {
    match selected {
        Some(sel) => {
            let i = id_position(ids, sel);
            if i == -1 {
                None
            } else if i == ids.len() - 1 {
                Some(ids[i])
            } else {
                Some(ids[i + 1])
            }
        },
        None => if ids.len() > 0 {
            Some(ids[0])
        } else {
            None
        },
    }
}

/// What `id_position` returns: -1 exactly when the id is absent, and
/// otherwise the first matching position.
pub proof fn lemma_id_position(ids: Seq<u32>, id: u32)
    ensures
        id_position(ids, id) == -1 <==> (forall|j: int| 0 <= j < ids.len() ==> ids[j] != id),
        id_position(ids, id) != -1 ==> 0 <= id_position(ids, id) < ids.len()
            && ids[id_position(ids, id)] == id
            && (forall|j: int| 0 <= j < id_position(ids, id) ==> ids[j] != id),
    decreases ids.len(),
{
    if ids.len() > 0 && ids[0] != id {
        lemma_id_position(ids.drop_first(), id);
        assert(forall|j: int| 1 <= j < ids.len() ==> #[trigger] ids[j] == ids.drop_first()[j - 1]);
    }
}

/// Position of an id in a listing.
fn find_id_pos(ids: &Vec<u32>, id: u32) -> (r: Option<usize>)
    ensures
        match r {
            Some(i) => i < ids@.len() && id_position(ids@, id) == i,
            None => id_position(ids@, id) == -1,
        },
{
    let mut i: usize = 0;
    while i < ids.len()
        invariant
            i <= ids.len(),
            forall|j: int| 0 <= j < i ==> ids@[j] != id,
        decreases ids.len() - i,
    {
        if ids[i] == id {
            proof {
                assert(ids@[i as int] == id);
                lemma_id_position(ids@, id);
            }
            return Some(i);
        }
        i = i + 1;
    }
    proof {
        lemma_id_position(ids@, id);
    }
    None
}

/// Moves the selection one entry up the listing.
pub fn select_previous(ids: &Vec<u32>, selected: Option<u32>) -> (r: Option<u32>)
    ensures
        r == select_previous_spec(ids@, selected),
{
    match selected {
        Some(sel) => match find_id_pos(ids, sel) {
            Some(0) => Some(ids[0]),
            Some(index) => Some(ids[index - 1]),
            None => None,
        },
        None => {
            if ids.len() > 0 {
                Some(ids[ids.len() - 1])
            } else {
                None
            }
        },
    }
}

/// Moves the selection one entry down the listing.
pub fn select_next(ids: &Vec<u32>, selected: Option<u32>) -> (r: Option<u32>)
    ensures
        r == select_next_spec(ids@, selected),
{
    match selected {
        Some(sel) => match find_id_pos(ids, sel) {
            Some(index) => {
                if index == ids.len() - 1 {
                    Some(ids[index])
                } else {
                    Some(ids[index + 1])
                }
            },
            None => None,
        },
        None => {
            if ids.len() > 0 {
                Some(ids[0])
            } else {
                None
            }
        },
    }
}

/// The top entry of the listing, if any.
pub fn select_first(ids: &Vec<u32>) -> (r: Option<u32>)
    ensures
        r == (if ids@.len() > 0 {
            Some(ids@[0])
        } else {
            None::<u32>
        }),
{
    if ids.len() > 0 {
        Some(ids[0])
    } else {
        None
    }
}

/// Keeps the selection only while it still appears in the listing.
pub fn retain_selection(ids: &Vec<u32>, selected: Option<u32>) -> (r: Option<u32>)
    ensures
        r == (match selected {
            Some(sel) => if id_position(ids@, sel) >= 0 {
                Some(sel)
            } else {
                None::<u32>
            },
            None => None::<u32>,
        }),
{
    match selected {
        Some(sel) => match find_id_pos(ids, sel) {
            Some(_) => Some(sel),
            None => None,
        },
        None => None,
    }
}

/// The entry nearest to a previous position after the listing shrank or the
/// entry moved: the same index when it still exists, else the bottom entry,
/// else nothing.
pub fn nearest_selection(ids: &Vec<u32>, previous_index: usize) -> (r: Option<u32>)
    ensures
        r == (if ids@.len() == 0 {
            None::<u32>
        } else if previous_index < ids@.len() {
            Some(ids@[previous_index as int])
        } else {
            Some(ids@[ids@.len() - 1])
        }),
{
    if ids.len() == 0 {
        None
    } else if previous_index < ids.len() {
        Some(ids[previous_index])
    } else {
        Some(ids[ids.len() - 1])
    }
}

} // verus!
