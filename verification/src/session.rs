//! The pomodoro session engine: one global session clock shared by every
//! joined task, driven by an injected `now`.

use vstd::prelude::*;
use crate::model::{
    Pomodoro, TaskView, TrackerError, lemma_task_index_of, task_after_leave, task_index_of,
    task_views,
};
use crate::database::{Database, DatabaseView, some_task_active};

verus! {

/// Result of an expiry sweep.
#[derive(Debug, PartialEq)]
pub enum SweepOutcome {
    /// No session is running.
    NotRunning,
    /// A session is running but not yet due.
    StillRunning,
    /// The session was due: it was closed, and these are the descriptions of
    /// the tasks it credited, in storage order.
    Expired(Vec<String>),
}

/// Mathematical image of a sweep result.
pub ghost enum SweepOutcomeView {
    NotRunning,
    StillRunning,
    Expired(Seq<Seq<char>>),
}

impl View for SweepOutcome {
    type V = SweepOutcomeView;

    open spec fn view(&self) -> SweepOutcomeView {
        match self {
            SweepOutcome::NotRunning => SweepOutcomeView::NotRunning,
            SweepOutcome::StillRunning => SweepOutcomeView::StillRunning,
            SweepOutcome::Expired(descs) => SweepOutcomeView::Expired(descs.deep_view()),
        }
    }
}

/// The session length in seconds.
pub open spec fn session_duration_secs(db: DatabaseView) -> int {
    db.pomodoro_duration_minutes * 60
}

/// Toggling a task's membership in the session at time `now`.
///
/// A joined task leaves, and if it was the last joined task the session
/// clock is cleared. An idle task joins, and if no session was running the
/// session clock is set to `now` first.
pub open spec fn toggle_pomodoro_tr(db: DatabaseView, task_id: u32, now: u64) -> Result<
    DatabaseView,
    TrackerError,
> {
    let i = task_index_of(db.tasks, task_id);
    if i == -1 {
        Err(TrackerError::NotFound)
    } else {
        let t = db.tasks[i];
        if t.active_pomodoro_jointime.is_some() {
            let left = db.tasks.update(i, task_after_leave(t, now));
            Ok(
                DatabaseView {
                    tasks: left,
                    active_pomodoro_starttime: if some_task_active(left) {
                        db.active_pomodoro_starttime
                    } else {
                        None
                    },
                    ..db
                },
            )
        } else {
            Ok(
                DatabaseView {
                    tasks: db.tasks.update(
                        i,
                        TaskView { active_pomodoro_jointime: Some(now), ..t },
                    ),
                    active_pomodoro_starttime: if db.active_pomodoro_starttime.is_some() {
                        db.active_pomodoro_starttime
                    } else {
                        Some(now)
                    },
                    ..db
                },
            )
        }
    }
}

/// Descriptions of the joined tasks, in storage order.
pub open spec fn active_descriptions(tasks: Seq<TaskView>) -> Seq<Seq<char>>
    decreases tasks.len(),
{
    if tasks.len() == 0 {
        Seq::empty()
    } else {
        let rest = active_descriptions(tasks.drop_last());
        if tasks.last().active_pomodoro_jointime.is_some() {
            rest.push(tasks.last().description)
        } else {
            rest
        }
    }
}

/// One step of `active_descriptions` along a prefix.
proof fn lemma_active_descriptions_step(s: Seq<TaskView>, i: int)
    requires
        0 <= i < s.len(),
    ensures
        active_descriptions(s.take(i + 1)) == if s[i].active_pomodoro_jointime.is_some() {
            active_descriptions(s.take(i)).push(s[i].description)
        } else {
            active_descriptions(s.take(i))
        },
{
    assert(s.take(i + 1).drop_last() =~= s.take(i));
    assert(s.take(i + 1).last() == s[i]);
}

/// The expiry sweep at time `now`.
///
/// With no session it reports `NotRunning`; with a session not yet due it
/// reports `StillRunning` and changes nothing. With a session overdue it
/// makes every joined task leave at the capped time `start + duration`
/// (overrun is never credited), clears the session clock, and reports the
/// descriptions of the tasks it credited.
pub open spec fn sweep_tr(db: DatabaseView, now: u64) -> (DatabaseView, SweepOutcomeView) {
    match db.active_pomodoro_starttime {
        None => (db, SweepOutcomeView::NotRunning),
        Some(start) => {
            let dur = session_duration_secs(db);
            if now > start && now - start > dur {
                let capped = (start + dur) as u64;
                (
                    DatabaseView {
                        tasks: db.tasks.map_values(|t: TaskView| task_after_leave(t, capped)),
                        active_pomodoro_starttime: None,
                        ..db
                    },
                    SweepOutcomeView::Expired(active_descriptions(db.tasks)),
                )
            } else {
                (db, SweepOutcomeView::StillRunning)
            }
        },
    }
}

/// Remaining time and elapsed fraction of the running session at time `now`.
///
/// `None` without a session. Otherwise the pair of seconds left and the
/// elapsed fraction in permille; a session past its duration is clamped to
/// `(0, 0)` as a display-safety floor, and a clock before the session start
/// counts as no elapsed time.
pub open spec fn remaining_time_of(db: DatabaseView, now: u64) -> Option<(u64, u32)> {
    match db.active_pomodoro_starttime {
        None => None,
        Some(start) => {
            let dur = session_duration_secs(db);
            let elapsed: int = if now >= start {
                now - start
            } else {
                0
            };
            if elapsed > dur {
                Some((0u64, 0u32))
            } else if dur == 0 {
                Some((0u64, 0u32))
            } else {
                Some((((dur - elapsed) as u64), ((elapsed * 1000 / dur) as u32)))
            }
        },
    }
}

/// Whether some task in the vector is joined to the session.
fn any_task_active(tasks: &Vec<crate::model::Task>) -> (r: bool)
    ensures
        r == some_task_active(task_views(tasks@)),
{
    let mut i: usize = 0;
    while i < tasks.len()
        invariant
            i <= tasks.len(),
            forall|j: int| 0 <= j < i ==> (#[trigger] task_views(tasks@)[j])
                .active_pomodoro_jointime
                .is_none(),
        decreases tasks.len() - i,
    {
        if tasks[i].active_pomodoro_jointime.is_some() {
            proof {
                assert(task_views(tasks@)[i as int] == tasks@[i as int]@);
            }
            return true;
        }
        proof {
            assert(task_views(tasks@)[i as int] == tasks@[i as int]@);
        }
        i = i + 1;
    }
    false
}

impl Database {
    /// Toggles whether the task with the given id is joined to the session,
    /// keeping the session clock consistent with the set of joined tasks.
    pub fn toggle_pomodoro(&mut self, task_id: u32, now: u64) -> (r: Result<(), TrackerError>)
        ensures
            match toggle_pomodoro_tr(old(self)@, task_id, now) {
                Ok(d) => r == Ok::<(), TrackerError>(()) && final(self)@ == d,
                Err(e) => r == Err::<(), TrackerError>(e) && final(self)@ == old(self)@,
            },
    {
        let i = match crate::database::find_task_pos(&self.tasks, task_id) {
            Some(i) => i,
            None => {
                return Err(TrackerError::NotFound);
            },
        };
        let ghost t0 = self.tasks@;
        match self.tasks[i].active_pomodoro_jointime {
            Some(jointime) => {
                self.tasks[i].past_pomodoros.push(
                    Pomodoro { start_time: jointime, end_time: now },
                );
                self.tasks[i].active_pomodoro_jointime = None;
                proof {
                    assert(self.tasks@[i as int]@ == task_after_leave(t0[i as int]@, now));
                    assert forall|j: int| 0 <= j < t0.len() && j != i implies #[trigger] self@
                        .tasks[j] == task_views(t0)[j] by {
                        assert(self.tasks@[j] == t0[j]);
                    }
                    assert(task_views(t0)[i as int] == t0[i as int]@);
                    assert(self@.tasks =~= task_views(t0).update(
                        i as int,
                        task_after_leave(t0[i as int]@, now),
                    ));
                }
                if !any_task_active(&self.tasks) {
                    self.active_pomodoro_starttime = None;
                }
                proof {
                    assert(self@ =~= toggle_pomodoro_tr(old(self)@, task_id, now).unwrap());
                }
            },
            None => {
                if self.active_pomodoro_starttime.is_none() {
                    self.active_pomodoro_starttime = Some(now);
                }
                self.tasks[i].active_pomodoro_jointime = Some(now);
                proof {
                    assert forall|j: int| 0 <= j < t0.len() && j != i implies #[trigger] self@
                        .tasks[j] == task_views(t0)[j] by {
                        assert(self.tasks@[j] == t0[j]);
                    }
                    assert(task_views(t0)[i as int] == t0[i as int]@);
                    assert(self@.tasks =~= task_views(t0).update(
                        i as int,
                        TaskView { active_pomodoro_jointime: Some(now), ..t0[i as int]@ },
                    ));
                    assert(self@ =~= toggle_pomodoro_tr(old(self)@, task_id, now).unwrap());
                }
            },
        }
        Ok(())
    }

    /// Runs the expiry sweep at time `now`.
    pub fn check_active_pomodoro_over(&mut self, now: u64) -> (r: SweepOutcome)
        ensures
            final(self)@ == sweep_tr(old(self)@, now).0,
            r@ == sweep_tr(old(self)@, now).1,
    {
        let start = match self.active_pomodoro_starttime {
            Some(s) => s,
            None => {
                return SweepOutcome::NotRunning;
            },
        };
        let dur: u64 = self.pomodoro_duration_minutes as u64 * 60;
        if !(now > start && now - start > dur) {
            return SweepOutcome::StillRunning;
        }
        let capped: u64 = start + dur;
        let ghost t0 = self.tasks@;
        let mut descriptions: Vec<String> = Vec::new();
        let mut i: usize = 0;
        while i < self.tasks.len()
            invariant
                i <= self.tasks.len(),
                self.tasks@.len() == t0.len(),
                forall|j: int| 0 <= j < i ==> #[trigger] self@.tasks[j] == task_after_leave(
                    t0[j]@,
                    capped,
                ),
                forall|j: int| i <= j < t0.len() ==> #[trigger] self.tasks@[j] == t0[j],
                descriptions.deep_view() == active_descriptions(
                    task_views(t0).take(i as int),
                ),
                self.categories@ == old(self).categories@,
                self.pomodoro_duration_minutes == old(self).pomodoro_duration_minutes,
                self.active_pomodoro_starttime == old(self).active_pomodoro_starttime,
                self.default_category_id == old(self).default_category_id,
            decreases self.tasks.len() - i,
        {
            let ghost prevv = self.tasks@;
            let ghost prevd = descriptions.deep_view();
            proof {
                lemma_active_descriptions_step(task_views(t0), i as int);
                assert(task_views(t0)[i as int] == t0[i as int]@);
                assert forall|j: int| 0 <= j < i implies #[trigger] task_views(prevv)[j]
                    == task_after_leave(t0[j]@, capped) by {
                    assert(self@.tasks[j] == task_after_leave(t0[j]@, capped));
                }
            }
            if self.tasks[i].active_pomodoro_jointime.is_some() {
                descriptions.push(self.tasks[i].description.clone());
                let jointime = match self.tasks[i].active_pomodoro_jointime {
                    Some(j) => j,
                    None => 0,
                };
                self.tasks[i].past_pomodoros.push(
                    Pomodoro { start_time: jointime, end_time: capped },
                );
                self.tasks[i].active_pomodoro_jointime = None;
                proof {
                    assert(self.tasks@[i as int]@ == task_after_leave(t0[i as int]@, capped));
                    assert(descriptions.deep_view() =~= prevd.push(t0[i as int]@.description));
                    assert(active_descriptions(task_views(t0).take(i as int + 1))
                        == prevd.push(t0[i as int]@.description));
                }
            } else {
                proof {
                    assert(self.tasks@[i as int]@ == task_after_leave(t0[i as int]@, capped));
                    assert(active_descriptions(task_views(t0).take(i as int + 1)) == prevd);
                }
            }
            proof {
                assert forall|j: int| 0 <= j < i + 1 implies #[trigger] self@.tasks[j]
                    == task_after_leave(t0[j]@, capped) by {
                    assert(self@.tasks[j] == self.tasks@[j]@);
                    if j < i {
                        assert(self.tasks@[j] == prevv[j]);
                        assert(prevv[j]@ == task_views(prevv)[j]);
                        assert(task_views(prevv)[j] == task_after_leave(t0[j]@, capped));
                    } else {
                        assert(self.tasks@[j]@ == task_after_leave(t0[j]@, capped));
                    }
                }
            }
            i = i + 1;
        }
        let ghost swept = self.tasks@;
        proof {
            assert(task_views(t0).take(t0.len() as int) =~= task_views(t0));
            assert forall|j: int| 0 <= j < t0.len() implies #[trigger] task_views(swept)[j]
                == task_after_leave(t0[j]@, capped) by {
                assert(self@.tasks[j] == task_after_leave(t0[j]@, capped));
            }
        }
        self.active_pomodoro_starttime = None;
        proof {
            assert(self.tasks@ == swept);
            assert forall|j: int| 0 <= j < t0.len() implies #[trigger] sweep_tr(
                old(self)@,
                now,
            ).0.tasks[j] == self@.tasks[j] by {
                assert(task_views(t0)[j] == t0[j]@);
                assert(self@.tasks[j] == task_views(swept)[j]);
            }
            assert(self@.tasks =~= sweep_tr(old(self)@, now).0.tasks);
            assert(self@ =~= sweep_tr(old(self)@, now).0);
        }
        SweepOutcome::Expired(descriptions)
    }

    /// Remaining seconds and elapsed fraction in permille of the running
    /// session at time `now`, or `None` when no session runs.
    pub fn get_remaining_pomodoro_time(&self, now: u64) -> (r: Option<(u64, u32)>)
        ensures
            r == remaining_time_of(self@, now),
    {
        let start = match self.active_pomodoro_starttime {
            Some(s) => s,
            None => {
                return None;
            },
        };
        let dur: u64 = self.pomodoro_duration_minutes as u64 * 60;
        let elapsed: u64 = if now >= start {
            now - start
        } else {
            0
        };
        if elapsed > dur {
            Some((0, 0))
        } else if dur == 0 {
            Some((0, 0))
        } else {
            Some((dur - elapsed, (elapsed * 1000 / dur) as u32))
        }
    }
}

/// Joining a task while no session runs sets the session start to the join
/// time.
pub proof fn lemma_join_starts_session(db: DatabaseView, task_id: u32, now: u64)
    requires
        task_index_of(db.tasks, task_id) >= 0,
        db.tasks[task_index_of(db.tasks, task_id)].active_pomodoro_jointime is None,
        db.active_pomodoro_starttime is None,
    ensures
        toggle_pomodoro_tr(db, task_id, now) matches Ok(d) && d.active_pomodoro_starttime == Some(
            now,
        ),
{
}

/// Leaving the last joined task clears the session.
pub proof fn lemma_leave_last_clears_session(db: DatabaseView, task_id: u32, now: u64)
    requires
        task_index_of(db.tasks, task_id) >= 0,
        db.tasks[task_index_of(db.tasks, task_id)].active_pomodoro_jointime is Some,
        forall|j: int| 0 <= j < db.tasks.len() && j != task_index_of(db.tasks, task_id)
            ==> (#[trigger] db.tasks[j]).active_pomodoro_jointime is None,
    ensures
        toggle_pomodoro_tr(db, task_id, now) matches Ok(d) && d.active_pomodoro_starttime is None,
{
    let i = task_index_of(db.tasks, task_id);
    lemma_task_index_of(db.tasks, task_id);
    let left = db.tasks.update(i, task_after_leave(db.tasks[i], now));
    assert forall|j: int| 0 <= j < left.len() implies (#[trigger] left[j])
        .active_pomodoro_jointime is None by {
        if j != i {
            assert(db.tasks[j].active_pomodoro_jointime is None);
        }
    }
    assert(!some_task_active(left));
}

/// An overdue sweep caps every joined task's leave time at
/// `start + duration`, returns their descriptions in storage order, clears
/// the session, and a sweep immediately afterwards reports `NotRunning`.
pub proof fn lemma_expiry_sweep(db: DatabaseView, now: u64)
    requires
        db.active_pomodoro_starttime matches Some(start) && now > start && now - start
            > session_duration_secs(db),
    ensures
        ({
            let (d, out) = sweep_tr(db, now);
            let start = db.active_pomodoro_starttime.unwrap();
            let capped = (start + session_duration_secs(db)) as u64;
            &&& d.active_pomodoro_starttime is None
            &&& out == SweepOutcomeView::Expired(active_descriptions(db.tasks))
            &&& d.tasks.len() == db.tasks.len()
            &&& forall|j: int| 0 <= j < db.tasks.len() ==> #[trigger] d.tasks[j]
                == task_after_leave(db.tasks[j], capped)
            &&& sweep_tr(d, now).0 == d
            &&& sweep_tr(d, now).1 == SweepOutcomeView::NotRunning
        }),
{
}

} // verus!

verus! {

/// Toggling keeps the session clock consistent with the set of joined tasks:
/// the clock runs exactly while at least one task is joined.
pub proof fn lemma_toggle_keeps_session_consistent(db: DatabaseView, task_id: u32, now: u64)
    requires
        crate::database::session_consistent(db),
        toggle_pomodoro_tr(db, task_id, now) is Ok,
    ensures
        crate::database::session_consistent(toggle_pomodoro_tr(db, task_id, now).unwrap()),
{
    let i = task_index_of(db.tasks, task_id);
    lemma_task_index_of(db.tasks, task_id);
    let t = db.tasks[i];
    let d = toggle_pomodoro_tr(db, task_id, now).unwrap();
    if t.active_pomodoro_jointime.is_some() {
        let left = db.tasks.update(i, task_after_leave(t, now));
        if some_task_active(left) {
            assert(some_task_active(db.tasks));
        }
    } else {
        assert(d.tasks[i].active_pomodoro_jointime.is_some());
        assert(some_task_active(d.tasks));
    }
}

/// The expiry sweep keeps the session clock consistent with the set of
/// joined tasks; after an overdue sweep nothing is joined and no clock runs.
pub proof fn lemma_sweep_keeps_session_consistent(db: DatabaseView, now: u64)
    requires
        crate::database::session_consistent(db),
    ensures
        crate::database::session_consistent(sweep_tr(db, now).0),
{
    let (d, out) = sweep_tr(db, now);
    match db.active_pomodoro_starttime {
        None => {},
        Some(start) => {
            let dur = session_duration_secs(db);
            if now > start && now - start > dur {
                let capped = (start + dur) as u64;
                assert forall|j: int| 0 <= j < d.tasks.len() implies (#[trigger] d.tasks[j])
                    .active_pomodoro_jointime is None by {
                    assert(d.tasks[j] == task_after_leave(db.tasks[j], capped));
                }
                assert(!some_task_active(d.tasks));
            }
        },
    }
}

} // verus!
