use vstd::prelude::*;
use crate::utils::{Mission, MissionKind, MissionStatus};

verus! {

/// How many of the first `i` missions have the given kind and status.
pub open spec fn count_missions(
    ms: Seq<Mission>,
    i: int,
    kind: MissionKind,
    status: MissionStatus,
) -> int
    decreases i,
{
    if i <= 0 {
        0
    } else {
        count_missions(ms, i - 1, kind, status) + if ms[i - 1].kind == kind && ms[i - 1].status
            == status {
            1int
        } else {
            0int
        }
    }
}

proof fn lemma_count_missions_le(ms: Seq<Mission>, i: int, kind: MissionKind,
    status: MissionStatus)
    requires
        0 <= i <= ms.len(),
    ensures
        0 <= count_missions(ms, i, kind, status) <= i,
    decreases i,
{
    if i > 0 {
        lemma_count_missions_le(ms, i - 1, kind, status);
    }
}

/// The first rule fires once a positive even number of explorers have
/// completed and road builders are waiting: active explorers pause, paused
/// road builders activate.
pub open spec fn spec_rule_one(ms: Seq<Mission>) -> bool {
    let ce = count_missions(ms, ms.len() as int, MissionKind::Explore, MissionStatus::Completed);
    let wrb = count_missions(ms, ms.len() as int, MissionKind::RoadBuilder,
        MissionStatus::Paused);
    ce > 0 && ce % 2 == 0 && wrb > 0
}

/// The second rule fires once explorers are waiting and an even number of
/// road builders have completed (or none is active any more): paused
/// explorers activate, active road builders pause. Both rules judge the
/// queue as it stood at the start of the tick.
pub open spec fn spec_rule_two(ms: Seq<Mission>) -> bool {
    let we = count_missions(ms, ms.len() as int, MissionKind::Explore, MissionStatus::Paused);
    let crb = count_missions(ms, ms.len() as int, MissionKind::RoadBuilder,
        MissionStatus::Completed);
    let arb = count_missions(ms, ms.len() as int, MissionKind::RoadBuilder,
        MissionStatus::Active);
    we > 0 && crb > 0 && (crb % 2 == 0 || arb == 0)
}

/// The status a mission ends the scheduling pass with, given which rules
/// fired: rule one is applied first, rule two to its outcome.
pub open spec fn spec_next_status(
    kind: MissionKind,
    status: MissionStatus,
    rule1: bool,
    rule2: bool,
) -> MissionStatus {
    let after_one = if rule1 {
        if kind == MissionKind::Explore && status == MissionStatus::Active {
            MissionStatus::Paused
        } else if kind == MissionKind::RoadBuilder && status == MissionStatus::Paused {
            MissionStatus::Active
        } else {
            status
        }
    } else {
        status
    };
    if rule2 {
        if kind == MissionKind::Explore && after_one == MissionStatus::Paused {
            MissionStatus::Active
        } else if kind == MissionKind::RoadBuilder && after_one == MissionStatus::Active {
            MissionStatus::Paused
        } else {
            after_one
        }
    } else {
        after_one
    }
}

/// One scheduling pass over the mission queue: statuses move exactly as the
/// two alternation rules dictate, judged on the queue's starting state;
/// kinds and payloads are untouched.
pub fn schedule_missions(missions: &mut Vec<Mission>)
    ensures
        final(missions)@.len() == old(missions)@.len(),
        forall|i: int|
            0 <= i < old(missions)@.len() ==> {
                let m0 = old(missions)@[i];
                let m1 = #[trigger] final(missions)@[i];
                &&& m1.kind == m0.kind
                &&& m1.additional_data == m0.additional_data
                &&& m1.status == spec_next_status(
                    m0.kind,
                    m0.status,
                    spec_rule_one(old(missions)@),
                    spec_rule_two(old(missions)@),
                )
            },
{
    let ghost ms0 = missions@;
    let len = missions.len();
    // tally the queue as it stands
    let mut completed_explorers: u64 = 0;
    let mut waiting_explorers: u64 = 0;
    let mut completed_road_builders: u64 = 0;
    let mut waiting_road_builders: u64 = 0;
    let mut active_road_builders: u64 = 0;
    let mut i: usize = 0;
    while i < len
        invariant
            missions@ == ms0,
            len == ms0.len(),
            i <= len,
            completed_explorers == count_missions(ms0, i as int, MissionKind::Explore,
                MissionStatus::Completed),
            waiting_explorers == count_missions(ms0, i as int, MissionKind::Explore,
                MissionStatus::Paused),
            completed_road_builders == count_missions(ms0, i as int, MissionKind::RoadBuilder,
                MissionStatus::Completed),
            waiting_road_builders == count_missions(ms0, i as int, MissionKind::RoadBuilder,
                MissionStatus::Paused),
            active_road_builders == count_missions(ms0, i as int, MissionKind::RoadBuilder,
                MissionStatus::Active),
        decreases len - i,
    {
        proof {
            lemma_count_missions_le(ms0, i as int, MissionKind::Explore,
                MissionStatus::Completed);
            lemma_count_missions_le(ms0, i as int, MissionKind::Explore, MissionStatus::Paused);
            lemma_count_missions_le(ms0, i as int, MissionKind::RoadBuilder,
                MissionStatus::Completed);
            lemma_count_missions_le(ms0, i as int, MissionKind::RoadBuilder,
                MissionStatus::Paused);
            lemma_count_missions_le(ms0, i as int, MissionKind::RoadBuilder,
                MissionStatus::Active);
        }
        let m = &missions[i];
        match (m.kind, m.status) {
            (MissionKind::Explore, MissionStatus::Completed) => {
                completed_explorers = completed_explorers + 1;
            },
            (MissionKind::Explore, MissionStatus::Paused) => {
                waiting_explorers = waiting_explorers + 1;
            },
            (MissionKind::RoadBuilder, MissionStatus::Completed) => {
                completed_road_builders = completed_road_builders + 1;
            },
            (MissionKind::RoadBuilder, MissionStatus::Paused) => {
                waiting_road_builders = waiting_road_builders + 1;
            },
            (MissionKind::RoadBuilder, MissionStatus::Active) => {
                active_road_builders = active_road_builders + 1;
            },
            _ => {},
        }
        i = i + 1;
    }
    let rule1 = completed_explorers > 0 && completed_explorers % 2 == 0
        && waiting_road_builders > 0;
    let rule2 = waiting_explorers > 0 && completed_road_builders > 0
        && (completed_road_builders % 2 == 0 || active_road_builders == 0);
    proof {
        assert(rule1 == spec_rule_one(ms0));
        assert(rule2 == spec_rule_two(ms0));
    }
    if rule1 {
        let mut k: usize = 0;
        while k < len
            invariant
                len == missions@.len(),
                len == ms0.len(),
                k <= len,
                forall|l: int|
                    0 <= l < len ==> {
                        let m0 = ms0[l];
                        let m1 = #[trigger] missions@[l];
                        &&& m1.kind == m0.kind
                        &&& m1.additional_data == m0.additional_data
                    },
                forall|l: int|
                    0 <= l < k ==> (#[trigger] missions@[l]).status == (if ms0[l].kind
                        == MissionKind::Explore && ms0[l].status == MissionStatus::Active {
                        MissionStatus::Paused
                    } else if ms0[l].kind == MissionKind::RoadBuilder && ms0[l].status
                        == MissionStatus::Paused {
                        MissionStatus::Active
                    } else {
                        ms0[l].status
                    }),
                forall|l: int|
                    (k as int) <= l < len ==> (#[trigger] missions@[l]).status
                        == ms0[l].status,
            decreases len - k,
        {
            let is_explorer_active = {
                let m = &missions[k];
                m.kind == MissionKind::Explore && m.status == MissionStatus::Active
            };
            let is_rb_paused = {
                let m = &missions[k];
                m.kind == MissionKind::RoadBuilder && m.status == MissionStatus::Paused
            };
            if is_explorer_active {
                missions[k].status = MissionStatus::Paused;
            } else if is_rb_paused {
                missions[k].status = MissionStatus::Active;
            }
            k = k + 1;
        }
    }
    let ghost ms1 = missions@;
    proof {
        assert forall|l: int| 0 <= l < len implies (#[trigger] ms1[l]).status == (if rule1 {
            if ms0[l].kind == MissionKind::Explore && ms0[l].status == MissionStatus::Active {
                MissionStatus::Paused
            } else if ms0[l].kind == MissionKind::RoadBuilder && ms0[l].status
                == MissionStatus::Paused {
                MissionStatus::Active
            } else {
                ms0[l].status
            }
        } else {
            ms0[l].status
        }) by {}
    }
    if rule2 {
        let mut k: usize = 0;
        while k < len
            invariant
                len == missions@.len(),
                len == ms1.len(),
                k <= len,
                forall|l: int|
                    0 <= l < len ==> {
                        let m0 = ms1[l];
                        let m1 = #[trigger] missions@[l];
                        &&& m1.kind == m0.kind
                        &&& m1.additional_data == m0.additional_data
                    },
                forall|l: int|
                    0 <= l < k ==> (#[trigger] missions@[l]).status == (if ms1[l].kind
                        == MissionKind::Explore && ms1[l].status == MissionStatus::Paused {
                        MissionStatus::Active
                    } else if ms1[l].kind == MissionKind::RoadBuilder && ms1[l].status
                        == MissionStatus::Active {
                        MissionStatus::Paused
                    } else {
                        ms1[l].status
                    }),
                forall|l: int|
                    (k as int) <= l < len ==> (#[trigger] missions@[l]).status
                        == ms1[l].status,
            decreases len - k,
        {
            let is_explorer_paused = {
                let m = &missions[k];
                m.kind == MissionKind::Explore && m.status == MissionStatus::Paused
            };
            let is_rb_active = {
                let m = &missions[k];
                m.kind == MissionKind::RoadBuilder && m.status == MissionStatus::Active
            };
            if is_explorer_paused {
                missions[k].status = MissionStatus::Active;
            } else if is_rb_active {
                missions[k].status = MissionStatus::Paused;
            }
            k = k + 1;
        }
    }
}

/// The mission the tick will run: the first active one in queue order.
pub fn select_active(missions: &Vec<Mission>) -> (r: Option<usize>)
    ensures
        match r {
            Some(i) => i < missions@.len() && missions@[i as int].status
                == MissionStatus::Active && (forall|j: int|
                0 <= j < i ==> (#[trigger] missions@[j]).status != MissionStatus::Active),
            None => forall|j: int|
                0 <= j < missions@.len() ==> (#[trigger] missions@[j]).status
                    != MissionStatus::Active,
        },
{
    let mut i: usize = 0;
    while i < missions.len()
        invariant
            i <= missions@.len(),
            forall|j: int|
                0 <= j < i ==> (#[trigger] missions@[j]).status != MissionStatus::Active,
        decreases missions@.len() - i,
    {
        let st = missions[i].status;
        if st == MissionStatus::Active {
            return Some(i);
        }
        i = i + 1;
    }
    None
}

} // verus!
