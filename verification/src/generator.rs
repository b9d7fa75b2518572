//! Activities of a made-up project, to try the tools on.

use vstd::prelude::*;

verus! {

/// An activity with its demands on two resources and the activities that
/// come after it.
#[derive(Debug)]
pub struct Activity {
    pub id: u8,
    pub duration: u8,
    pub r0: u8,
    pub r1: u8,
    pub successors: Vec<u8>,
}

/// What `generate_activities` makes of a number: a first activity without
/// successors, then the activities `1 ..= activity_count`, each with the
/// successors 1 and 1, and a last activity without successors; none takes
/// time or a resource.
pub open spec fn generated(activities: Seq<Activity>, activity_count: int) -> bool {
    &&& activities.len() == activity_count + 2
    &&& forall|i: int|
        0 <= i < activities.len() ==> {
            let activity = #[trigger] activities[i];
            &&& activity.id == i
            &&& activity.duration == 0
            &&& activity.r0 == 0
            &&& activity.r1 == 0
            &&& activity.successors@ == if 1 <= i <= activity_count {
                seq![1u8, 1u8]
            } else {
                Seq::<u8>::empty()
            }
        }
}

/// The activities of a made-up project with `activity_count` activities
/// between its first and its last.
pub fn generate_activities(activity_count: u8) -> (activities: Vec<Activity>)
    requires
        activity_count < 255,
    ensures
        generated(activities@, activity_count as int),
{
    let mut activities: Vec<Activity> = Vec::new();
    activities.push(Activity { id: 0, duration: 0, r0: 0, r1: 0, successors: Vec::new() });
    let mut id: u8 = 1;
    while id < activity_count + 1
        invariant
            activity_count < 255,
            1 <= id <= activity_count + 1,
            activities.len() == id,
            forall|i: int|
                0 <= i < activities.len() ==> {
                    let activity = #[trigger] activities[i];
                    &&& activity.id == i
                    &&& activity.duration == 0
                    &&& activity.r0 == 0
                    &&& activity.r1 == 0
                    &&& activity.successors@ == if 1 <= i <= activity_count {
                        seq![1u8, 1u8]
                    } else {
                        Seq::<u8>::empty()
                    }
                },
        decreases activity_count + 1 - id,
    {
        let successors: Vec<u8> = vec![1u8, 1u8];
        activities.push(Activity { id, duration: 0, r0: 0, r1: 0, successors });
        id = id + 1;
    }
    activities.push(
        Activity { id: activity_count + 1, duration: 0, r0: 0, r1: 0, successors: Vec::new() },
    );
    activities
}

} // verus!
