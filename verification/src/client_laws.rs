//! What the client keeps of what is typed, and which tab it shows.
use vstd::prelude::*;

use crate::desktop::{
    accepted, actions_are_sent_once, batch_error, batch_refusal, queued, queued_all, refusal,
    run_length_facts, stepped, Desk, Move, Phase, Target, MAX_RUN,
};
use crate::input::Act;
use crate::session::Access;
use crate::tmux::PaneId;
use crate::workspace::{
    housed, place_facts, place_of, room_after, without, Action, Probe, Room, MAX_TABS,
};

verus! {

/// The smallest parts of an action: each byte of a text, or the action itself.
pub open spec fn parts(target: Target, act: Act) -> Seq<(Target, Act)> {
    match act {
        Act::Bytes(bytes) => bytes.map_values(|b: u8| (target, Act::Bytes(seq![b]))),
        _ => seq![(target, act)],
    }
}

/// The smallest parts of a queue, in its order.
pub open spec fn all_parts(queue: Seq<(Target, Act)>) -> Seq<(Target, Act)>
    decreases queue.len(),
{
    if queue.len() == 0 {
        seq![]
    } else {
        all_parts(queue.drop_last()) + parts(queue.last().0, queue.last().1)
    }
}

/// Whatever is queued comes behind everything that was queued before: no byte, key or
/// paste is lost, doubled, or moved past another one, and each keeps its own target.
pub proof fn queueing_keeps_the_order(queue: Seq<(Target, Act)>, target: Target, act: Act)
    ensures
        all_parts(queued(queue, target, act)) == all_parts(queue) + parts(target, act),
{
    let now = queued(queue, target, act);
    if now.len() == queue.len() {
        let before = queue.last().1->Bytes_0;
        let more = act->Bytes_0;
        assert(now.drop_last() =~= queue.drop_last());
        assert(parts(target, Act::Bytes(before + more)) =~= parts(target, Act::Bytes(before))
            + parts(target, act));
        assert(all_parts(now) =~= all_parts(queue) + parts(target, act));
    } else {
        assert(now.drop_last() =~= queue);
    }
}

/// The actions of a frame are queued in their order, behind what was there.
pub proof fn frames_keep_the_order(queue: Seq<(Target, Act)>, more: Seq<(Target, Act)>)
    ensures
        all_parts(queued_all(queue, more)) == all_parts(queue) + all_parts(more),
    decreases more.len(),
{
    if more.len() == 0 {
        assert(all_parts(queue) + all_parts(more) =~= all_parts(queue));
    } else {
        frames_keep_the_order(queue, more.drop_last());
        queueing_keeps_the_order(
            queued_all(queue, more.drop_last()),
            more.last().0,
            more.last().1,
        );
        assert(all_parts(queued_all(queue, more)) =~= all_parts(queue) + all_parts(more));
    }
}

/// A frame is queued whole or not at all: it is refused where any of its actions is.
pub proof fn frames_are_queued_whole(d: Desk, batch: Seq<(Target, Act)>)
    ensures
        batch_error(d, batch) is None ==> forall|i: int|
            0 <= i < batch.len() ==> refusal(d, (#[trigger] batch[i]).0, batch[i].1) is None,
{
    refusals_are_found(d, batch);
}

proof fn refusals_are_found(d: Desk, batch: Seq<(Target, Act)>)
    ensures
        batch_refusal(d, batch) is None ==> forall|i: int|
            0 <= i < batch.len() ==> refusal(d, (#[trigger] batch[i]).0, batch[i].1) is None,
    decreases batch.len(),
{
    if batch.len() > 0 {
        let front = batch.drop_last();
        refusals_are_found(d, front);
        if batch_refusal(d, batch) is None {
            assert forall|i: int| 0 <= i < batch.len() implies refusal(
                d,
                (#[trigger] batch[i]).0,
                batch[i].1,
            ) is None by {
                if i < front.len() {
                    assert(front[i] == batch[i]);
                }
            }
        }
    }
}

/// What is sent goes to the pane that it was meant for, while the view that it was meant
/// for is still the one that is followed. A change of the layout is sent alone, only where
/// that was allowed, and nothing that waited behind it is sent at all.
pub proof fn input_goes_where_it_was_meant(d: Desk, epoch: nat, pane: PaneId, sent: Seq<Act>)
    requires
        accepted(d, epoch),
        d.view is Some,
        stepped(d, epoch).1 == Move::Send(pane, sent),
    ensures
        d.phase == Phase::Watching,
        d.access == Access::Interactive,
        forall|i: int|
            0 <= i < sent.len() ==> {
                &&& (#[trigger] d.queue[i]).0.spec_pane() == pane
                &&& d.queue[i].0.spec_epoch() == d.epoch
                &&& d.queue[i].0.spec_generation() == d.generation
                &&& d.queue[i].1 == sent[i]
            },
        forall|i: int|
            0 <= i < sent.len() && (#[trigger] sent[i]) is Resize ==> d.allow_resize && sent.len()
                == 1 && stepped(d, epoch).0.queue.len() == 0 && (d.queue.len() > 1 ==> stepped(
                d,
                epoch,
            ).0.error is Some),
{
    actions_are_sent_once(d, epoch, pane, sent);
    run_length_facts(d.queue.drop_first(), d.queue[0].0, (MAX_RUN - 1) as nat);
    assert forall|i: int| 0 <= i < sent.len() implies (#[trigger] d.queue[i]).1 == sent[i] by {
        assert(sent[i] == d.queue.take(sent.len() as int)[i].1);
    }
    assert forall|i: int| 0 <= i < sent.len() && (#[trigger] sent[i]) is Resize implies
        d.allow_resize && sent.len() == 1 && stepped(d, epoch).0.queue.len() == 0 && (
    d.queue.len() > 1 ==> stepped(d, epoch).0.error is Some) by {
        assert(d.queue[i].1 == sent[i]);
        if i > 0 {
            assert(d.queue.drop_first()[i - 1] == d.queue[i]);
        }
    }
}

/// The number of the tab that is shown.
pub open spec fn shown_id(room: Room) -> nat {
    room.tabs[room.active as int].id
}

/// Closing a tab takes it away and keeps the tab that is shown, if that is another one. In
/// the place of the shown one comes the tab behind it or, where there is none, the one
/// before it; the last tab of all leaves a new one, with a number of its own.
pub proof fn closing_keeps_the_shown_tab(room: Room, id: nat, probe: Probe)
    requires
        housed(room),
        exists|i: int| 0 <= i < room.tabs.len() && (#[trigger] room.tabs[i]).id == id,
    ensures
        ({
            let after = without(room, id, probe);
            &&& forall|i: int| 0 <= i < after.tabs.len() ==> (#[trigger] after.tabs[i]).id != id
            &&& if shown_id(room) != id {
                shown_id(after) == shown_id(room)
            } else if room.active + 1 < room.tabs.len() {
                shown_id(after) == room.tabs[room.active as int + 1].id
            } else if room.active > 0 {
                shown_id(after) == room.tabs[room.active - 1].id
            } else {
                after.tabs.len() == 1 && shown_id(after) == room.next && after.next > room.next
            }
        }),
{
    place_facts(room.tabs, id);
    let k = place_of(room.tabs, id);
    let after = without(room, id, probe);
    assert(room.tabs[k].id == id);
    assert forall|i: int| 0 <= i < after.tabs.len() implies (#[trigger] after.tabs[i]).id != id by {
        if room.tabs.len() > 1 {
            let j = if i < k {
                i
            } else {
                i + 1
            };
            assert(after.tabs[i].id == room.tabs[j].id);
            assert(room.tabs[j].id != room.tabs[k].id);
        } else {
            assert(room.tabs[k].id < room.next);
        }
    }
    if shown_id(room) != id {
        assert(k != room.active);
    } else {
        if k != room.active {
            assert(room.tabs[k].id != room.tabs[room.active as int].id);
        }
    }
}

/// A tab that is chosen is shown, and no tab comes or goes; one that is opened is shown
/// too, behind all others.
pub proof fn chosen_tabs_are_shown(
    room: Room,
    id: u64,
    clips: Seq<Option<Seq<char>>>,
    probe: Probe,
)
    requires
        housed(room),
    ensures
        ({
            let after = room_after(room, Action::Select(id), clips, probe);
            &&& after.tabs.len() == room.tabs.len()
            &&& forall|i: int|
                0 <= i < room.tabs.len() ==> (#[trigger] after.tabs[i]).id == room.tabs[i].id
            &&& if exists|i: int| 0 <= i < room.tabs.len() && (#[trigger] room.tabs[i]).id == id {
                shown_id(after) == id
            } else {
                shown_id(after) == shown_id(room)
            }
        }),
        room.tabs.len() < MAX_TABS ==> ({
            let after = room_after(room, Action::New, clips, probe);
            &&& after.tabs.len() == room.tabs.len() + 1
            &&& shown_id(after) == after.tabs.last().id
            &&& forall|i: int| 0 <= i < room.tabs.len() ==> (#[trigger] room.tabs[i]).id
                != shown_id(after)
        }),
        room.tabs.len() >= MAX_TABS ==> ({
            let after = room_after(room, Action::New, clips, probe);
            after.tabs == room.tabs && after.active == room.active && after.notice is Some
        }),
{
    place_facts(room.tabs, id as nat);
}

} // verus!
