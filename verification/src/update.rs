//! The update cycle: diffing each channel's last-published state against the
//! current target locations, and the decisions of the send/edit machine that
//! maintains the single pinned status message per channel.

use crate::collections::{lemma_prefix_contains_all, lemma_prefix_contains_step, prefix_contains,
    IdMap, IdSet};
use crate::tracking::{target_state_entries, target_states_get, TargetState};
use vstd::prelude::*;

verus! {

/// A failed chat API call, reduced to what the send/edit decisions read: the
/// platform's error code when the response carried one.
pub enum ChatError {
    Api(u32),
    Other,
}

/// A role ping is owed: the target is present now and is either newly sighted
/// or on a different server than last published.
pub open spec fn spec_is_ping(old_state: Option<TargetState>, current: Option<TargetState>) -> bool {
    match current {
        Some(cur) => match old_state {
            Some(prev) => prev.server != cur.server,
            None => true,
        },
        None => false,
    }
}

/// The published state is stale: the pair is neither absent on both sides nor
/// on the same server on both sides.
pub open spec fn spec_is_different(
    old_state: Option<TargetState>,
    current: Option<TargetState>,
) -> bool {
    &&& !(old_state is None && current is None)
    &&& !(old_state is Some && current is Some && old_state->0.server == current->0.server)
}

pub fn is_ping_states(old_state: Option<TargetState>, current_state: Option<TargetState>) -> (r:
    bool)
    ensures
        r == spec_is_ping(old_state, current_state),
{
    if let Some(cur) = current_state {
        if let Some(prev) = old_state {
            if cur.server != prev.server {
                return true;
            }
        } else {
            return true;
        }
    }
    false
}

pub fn is_different_states(
    old_state: Option<TargetState>,
    current_state: Option<TargetState>,
) -> (r: bool)
    ensures
        r == spec_is_different(old_state, current_state),
{
    if let Some(cur) = current_state {
        if let Some(prev) = old_state {
            if cur.server == prev.server {
                return false;
            }
        }
    }
    if current_state.is_none() && old_state.is_none() {
        return false;
    }
    true
}

/// The error code of a failed call, if the platform sent one.
pub open spec fn error_code(err: &ChatError) -> Option<u32> {
    match err {
        ChatError::Api(code) => Some(*code),
        ChatError::Other => None,
    }
}

/// A failed send is retried unless the channel is gone (10003) or access is
/// missing (50001).
pub fn should_retry_send(err: &ChatError) -> (r: bool)
    ensures
        r == !(error_code(err) == Some(10003u32) || error_code(err) == Some(50001u32)),
{
    match err {
        ChatError::Api(code) => !(*code == 10003 || *code == 50001),
        ChatError::Other => true,
    }
}

/// A failed delete is retried unless the channel (10003) or the message
/// (10008) is gone, or access is missing (50001).
pub fn should_retry_delete(err: &ChatError) -> (r: bool)
    ensures
        r == !(error_code(err) == Some(10003u32) || error_code(err) == Some(50001u32)
            || error_code(err) == Some(10008u32)),
{
    match err {
        ChatError::Api(code) => !(*code == 10003 || *code == 50001 || *code == 10008),
        ChatError::Other => true,
    }
}

/// A failed edit is retried unless the channel (10003) or the message (10008)
/// is gone, the message cannot be edited (50005), or access is missing
/// (50001).
pub fn should_retry_edit(err: &ChatError) -> (r: bool)
    ensures
        r == !(error_code(err) == Some(10003u32) || error_code(err) == Some(10008u32)
            || error_code(err) == Some(50005u32) || error_code(err) == Some(50001u32)),
{
    match err {
        ChatError::Api(code) => !(*code == 10003 || *code == 10008 || *code == 50005 || *code
            == 50001),
        ChatError::Other => true,
    }
}

/// After a failed edit, a fresh message is sent when the old one is gone
/// (10008) or cannot be edited (50005).
pub fn should_send_message(err: &ChatError) -> (r: bool)
    ensures
        r == (error_code(err) == Some(10008u32) || error_code(err) == Some(50005u32)),
{
    match err {
        ChatError::Api(code) => *code == 10008 || *code == 50005,
        ChatError::Other => false,
    }
}

/// After a failed edit, the whole tracker is deleted when the channel is gone
/// (10003), or when access is missing (50001) while the guild is neither
/// cached nor known to be unavailable.
pub fn should_delete_tracker(guild_cached: bool, guild_unavailable: bool, err: &ChatError) -> (r:
    bool)
    ensures
        r == (error_code(err) == Some(10003u32) || (error_code(err) == Some(50001u32)
            && !guild_unavailable && !guild_cached)),
{
    match err {
        ChatError::Api(code) => *code == 10003 || (*code == 50001 && !guild_unavailable
            && !guild_cached),
        ChatError::Other => false,
    }
}

/// What the send/edit machine does after an edit failed.
#[derive(PartialEq, Eq, Structural, Debug, Clone, Copy)]
pub enum EditOutcome {
    DeleteTracker,
    SendNew,
    GiveUp,
}

/// The decision after a failed edit: deleting the tracker wins over sending a
/// fresh message; anything else ends the attempt.
pub fn edit_failure_action(guild_cached: bool, guild_unavailable: bool, err: &ChatError) -> (r:
    EditOutcome)
    ensures
        r == (if error_code(err) == Some(10003u32) || (error_code(err) == Some(50001u32)
            && !guild_unavailable && !guild_cached) {
            EditOutcome::DeleteTracker
        } else if error_code(err) == Some(10008u32) || error_code(err) == Some(50005u32) {
            EditOutcome::SendNew
        } else {
            EditOutcome::GiveUp
        }),
{
    if should_delete_tracker(guild_cached, guild_unavailable, err) {
        EditOutcome::DeleteTracker
    } else if should_send_message(err) {
        EditOutcome::SendNew
    } else {
        EditOutcome::GiveUp
    }
}

/// Some published entry's target is no longer watched.
pub open spec fn any_stale(published: Map<u64, TargetState>, targets: Set<u64>) -> bool {
    exists|t: u64| #[trigger] published.contains_key(t) && !targets.contains(t)
}

/// Drops published entries whose target is no longer watched; raises the
/// output flag when any was dropped.
pub fn cleanup_channel_state(
    channel_state: &mut IdMap<TargetState>,
    targets: &IdSet,
    should_update_output: &mut bool,
)
    requires
        old(channel_state).wf(),
        targets.wf(),
    ensures
        final(channel_state).wf(),
        forall|t: u64|
            #![trigger final(channel_state)@.contains_key(t)]
            final(channel_state)@.contains_key(t) == (old(channel_state)@.contains_key(t)
                && targets@.contains(t)),
        forall|t: u64|
            #![trigger final(channel_state)@[t]]
            final(channel_state)@.contains_key(t) ==> final(channel_state)@[t] == old(
                channel_state,
            )@[t],
        *final(should_update_output) == (*old(should_update_output) || any_stale(
            old(channel_state)@,
            targets@,
        )),
{
    proof {
        channel_state.lemma_view();
    }
    let keys = channel_state.keys();
    let ghost ks = keys@;
    let ghost oldm = old(channel_state)@;
    let n = keys.len();
    for i in 0..n
        invariant
            targets.wf(),
            channel_state.wf(),
            ks == keys@,
            n == ks.len(),
            ks.no_duplicates(),
            ks.to_set() == oldm.dom(),
            oldm == old(channel_state)@,
            forall|t: u64|
                #![trigger channel_state@.contains_key(t)]
                channel_state@.contains_key(t) == (oldm.contains_key(t) && (prefix_contains(
                    ks,
                    i as int,
                    t,
                ) ==> targets@.contains(t))),
            forall|t: u64|
                #![trigger channel_state@[t]]
                channel_state@.contains_key(t) ==> channel_state@[t] == oldm[t],
            *should_update_output == (*old(should_update_output) || (exists|j: int|
                0 <= j < i && !targets@.contains(#[trigger] ks[j]))),
    {
        let k = keys[i];
        proof {
            assert(ks.to_set().contains(ks[i as int]));
            assert(oldm.contains_key(k));
        }
        if !targets.contains(k) {
            channel_state.remove(k);
            *should_update_output = true;
            proof {
                assert(!targets@.contains(ks[i as int]));
            }
        }
        proof {
            assert forall|t: u64|
                #![trigger channel_state@.contains_key(t)]
                channel_state@.contains_key(t) == (oldm.contains_key(t) && (prefix_contains(
                    ks,
                    i + 1,
                    t,
                ) ==> targets@.contains(t))) by {
                lemma_prefix_contains_step(ks, i as int, t);
            }
            assert forall|t: u64|
                #![trigger channel_state@[t]]
                channel_state@.contains_key(t) implies channel_state@[t] == oldm[t] by {}
        }
    }
    proof {
        assert forall|t: u64|
            #![trigger channel_state@.contains_key(t)]
            channel_state@.contains_key(t) == (oldm.contains_key(t) && targets@.contains(t)) by {
            lemma_prefix_contains_all(ks, t);
            if oldm.contains_key(t) {
                assert(ks.to_set().contains(t));
                assert(ks.contains(t));
            }
        }
        if *old(should_update_output) {
        } else if exists|j: int| 0 <= j < n && !targets@.contains(#[trigger] ks[j]) {
            let j = choose|j: int| 0 <= j < n && !targets@.contains(#[trigger] ks[j]);
            assert(ks.to_set().contains(ks[j]));
            assert(oldm.contains_key(ks[j]));
            assert(any_stale(oldm, targets@));
        } else {
            if any_stale(oldm, targets@) {
                let t = choose|t: u64| #[trigger] oldm.contains_key(t) && !targets@.contains(t);
                assert(ks.to_set().contains(t));
                assert(ks.contains(t));
                let j = choose|j: int| 0 <= j < ks.len() && (#[trigger] ks[j]) == t;
                assert(!targets@.contains(ks[j]));
            }
        }
    }
}

/// The location the update cycle publishes for a target: its tracked
/// location, but only while that location's game is watched by the channel.
pub open spec fn spec_current(
    states: Map<u64, TargetState>,
    games: Set<u64>,
    t: u64,
) -> Option<TargetState> {
    if states.contains_key(t) && games.contains(states[t].game) {
        Some(states[t])
    } else {
        None
    }
}

/// The entry the published state holds for a target, if any.
pub open spec fn published_entry(published: Map<u64, TargetState>, t: u64) -> Option<TargetState> {
    if published.contains_key(t) {
        Some(published[t])
    } else {
        None
    }
}

/// Publishes one target's current location into the channel state and folds
/// its transition into the output and ping flags.
pub fn process_target_state(
    target: u64,
    games: &IdSet,
    target_states: &dashmap::DashMap<u64, TargetState, ahash::RandomState>,
    channel_state: &mut IdMap<TargetState>,
    update_output: &mut bool,
    ping: &mut bool,
)
    requires
        old(channel_state).wf(),
        games.wf(),
    ensures
        final(channel_state).wf(),
        ({
            let current = spec_current(target_state_entries(*target_states), games@, target);
            let prev = published_entry(old(channel_state)@, target);
            &&& *final(update_output) == (*old(update_output) || spec_is_different(prev, current))
            &&& *final(ping) == (*old(ping) || spec_is_ping(prev, current))
            &&& final(channel_state)@ == (match current {
                Some(st) => old(channel_state)@.insert(target, st),
                None => old(channel_state)@.remove(target),
            })
        }),
{
    let raw = target_states_get(target_states, target);
    let current: Option<TargetState> = match raw {
        Some(st) => {
            if games.contains(st.game) {
                Some(st)
            } else {
                None
            }
        },
        None => None,
    };
    let prev: Option<TargetState> = match channel_state.get(target) {
        Some(st) => Some(*st),
        None => None,
    };
    if !*update_output {
        *update_output = is_different_states(prev, current);
    }
    if !*ping {
        *ping = is_ping_states(prev, current);
    }
    match current {
        Some(st) => {
            channel_state.insert(target, st);
        },
        None => {
            channel_state.remove(target);
        },
    }
}

/// Among the first `k` watched targets, some transition makes the published
/// output stale.
pub open spec fn transition_in_prefix(
    published: Map<u64, TargetState>,
    states: Map<u64, TargetState>,
    games: Set<u64>,
    ts: Seq<u64>,
    k: int,
) -> bool {
    exists|i: int|
        0 <= i < k && 0 <= i < ts.len() && spec_is_different(
            published_entry(published, #[trigger] ts[i]),
            spec_current(states, games, ts[i]),
        )
}

/// Among the first `k` watched targets, some transition owes a role ping.
pub open spec fn ping_in_prefix(
    published: Map<u64, TargetState>,
    states: Map<u64, TargetState>,
    games: Set<u64>,
    ts: Seq<u64>,
    k: int,
) -> bool {
    exists|i: int|
        0 <= i < k && 0 <= i < ts.len() && spec_is_ping(
            published_entry(published, #[trigger] ts[i]),
            spec_current(states, games, ts[i]),
        )
}

proof fn lemma_transition_prefix_step(
    published: Map<u64, TargetState>,
    states: Map<u64, TargetState>,
    games: Set<u64>,
    ts: Seq<u64>,
    k: int,
)
    requires
        0 <= k < ts.len(),
    ensures
        transition_in_prefix(published, states, games, ts, k + 1) <==> (transition_in_prefix(
            published,
            states,
            games,
            ts,
            k,
        ) || spec_is_different(
            published_entry(published, ts[k]),
            spec_current(states, games, ts[k]),
        )),
        ping_in_prefix(published, states, games, ts, k + 1) <==> (ping_in_prefix(
            published,
            states,
            games,
            ts,
            k,
        ) || spec_is_ping(published_entry(published, ts[k]), spec_current(states, games, ts[k]))),
{
    if transition_in_prefix(published, states, games, ts, k + 1) {
        let i = choose|i: int|
            0 <= i < k + 1 && 0 <= i < ts.len() && spec_is_different(
                published_entry(published, #[trigger] ts[i]),
                spec_current(states, games, ts[i]),
            );
        if i < k {
            assert(transition_in_prefix(published, states, games, ts, k));
        }
    }
    if transition_in_prefix(published, states, games, ts, k) {
        let i = choose|i: int|
            0 <= i < k && 0 <= i < ts.len() && spec_is_different(
                published_entry(published, #[trigger] ts[i]),
                spec_current(states, games, ts[i]),
            );
        assert(0 <= i < k + 1 && 0 <= i < ts.len() && spec_is_different(
            published_entry(published, ts[i]),
            spec_current(states, games, ts[i]),
        ));
    }
    if spec_is_different(published_entry(published, ts[k]), spec_current(states, games, ts[k])) {
        assert(0 <= k < k + 1 && 0 <= k < ts.len() && spec_is_different(
            published_entry(published, ts[k]),
            spec_current(states, games, ts[k]),
        ));
    }
    if ping_in_prefix(published, states, games, ts, k + 1) {
        let i = choose|i: int|
            0 <= i < k + 1 && 0 <= i < ts.len() && spec_is_ping(
                published_entry(published, #[trigger] ts[i]),
                spec_current(states, games, ts[i]),
            );
        if i < k {
            assert(ping_in_prefix(published, states, games, ts, k));
        }
    }
    if ping_in_prefix(published, states, games, ts, k) {
        let i = choose|i: int|
            0 <= i < k && 0 <= i < ts.len() && spec_is_ping(
                published_entry(published, #[trigger] ts[i]),
                spec_current(states, games, ts[i]),
            );
        assert(0 <= i < k + 1 && 0 <= i < ts.len() && spec_is_ping(
            published_entry(published, ts[i]),
            spec_current(states, games, ts[i]),
        ));
    }
    if spec_is_ping(published_entry(published, ts[k]), spec_current(states, games, ts[k])) {
        assert(0 <= k < k + 1 && 0 <= k < ts.len() && spec_is_ping(
            published_entry(published, ts[k]),
            spec_current(states, games, ts[k]),
        ));
    }
}

/// After a cycle, the published state binds exactly the watched targets that
/// currently have a publishable location, each to that location.
pub open spec fn published_exact(
    published: Map<u64, TargetState>,
    states: Map<u64, TargetState>,
    games: Set<u64>,
    targets: Set<u64>,
) -> bool {
    &&& forall|t: u64|
        #![trigger published.contains_key(t)]
        published.contains_key(t) == (targets.contains(t) && spec_current(states, games, t)
            is Some)
    &&& forall|t: u64|
        #![trigger published[t]]
        published.contains_key(t) ==> Some(published[t]) == spec_current(states, games, t)
}

/// One update pass over a channel: drops stale entries, publishes each
/// watched target's current location, and reports whether the output must be
/// re-rendered and whether a role ping is owed.
///
/// The published state ends with its keys among the watched targets: the
/// channel never publishes a target it no longer watches.
pub fn update_channel_state(
    channel_state: &mut IdMap<TargetState>,
    games: &IdSet,
    targets: &IdSet,
    target_states: &dashmap::DashMap<u64, TargetState, ahash::RandomState>,
    was_new: bool,
) -> (r: (bool, bool))
    requires
        old(channel_state).wf(),
        games.wf(),
        targets.wf(),
    ensures
        final(channel_state).wf(),
        published_exact(final(channel_state)@, target_state_entries(*target_states), games@, targets@),
        forall|t: u64|
            #[trigger] final(channel_state)@.contains_key(t) ==> targets@.contains(t),
        ({
            let cleaned = old(channel_state)@.restrict(targets@);
            let entries = target_state_entries(*target_states);
            let ts = targets.seq();
            &&& r.0 == (was_new || any_stale(old(channel_state)@, targets@)
                || transition_in_prefix(cleaned, entries, games@, ts, ts.len() as int))
            &&& r.1 == ping_in_prefix(cleaned, entries, games@, ts, ts.len() as int)
        }),
{
    let mut update_output = was_new;
    let mut ping = false;
    cleanup_channel_state(channel_state, targets, &mut update_output);
    let ghost cleaned = old(channel_state)@.restrict(targets@);
    proof {
        assert(channel_state@ =~= cleaned);
    }
    let ghost base_update = update_output;
    let ghost entries = target_state_entries(*target_states);
    let ghost ts = targets.seq();
    proof {
        targets.lemma_view();
    }
    let n = targets.len();
    for i in 0..n
        invariant
            games.wf(),
            targets.wf(),
            channel_state.wf(),
            n == ts.len(),
            ts == targets.seq(),
            ts.no_duplicates(),
            entries == target_state_entries(*target_states),
            base_update == (was_new || any_stale(old(channel_state)@, targets@)),
            update_output == (base_update || transition_in_prefix(
                cleaned,
                entries,
                games@,
                ts,
                i as int,
            )),
            ping == ping_in_prefix(cleaned, entries, games@, ts, i as int),
            forall|t: u64|
                #![trigger channel_state@.contains_key(t)]
                channel_state@.contains_key(t) == (if prefix_contains(ts, i as int, t) {
                    spec_current(entries, games@, t) is Some
                } else {
                    cleaned.contains_key(t)
                }),
            forall|t: u64|
                #![trigger channel_state@[t]]
                channel_state@.contains_key(t) ==> channel_state@[t] == (if prefix_contains(
                    ts,
                    i as int,
                    t,
                ) {
                    spec_current(entries, games@, t)->0
                } else {
                    cleaned[t]
                }),
    {
        let t = targets.get_at(i);
        let ghost pre = channel_state@;
        proof {
            assert(!prefix_contains(ts, i as int, t)) by {
                if prefix_contains(ts, i as int, t) {
                    let j = choose|j: int|
                        0 <= j < i && 0 <= j < ts.len() && (#[trigger] ts[j]) == t;
                    assert(ts[j] == ts[i as int]);
                }
            }
            assert(published_entry(pre, t) == published_entry(cleaned, t));
        }
        process_target_state(t, games, target_states, channel_state, &mut update_output, &mut ping);
        proof {
            lemma_transition_prefix_step(cleaned, entries, games@, ts, i as int);
            assert forall|t2: u64|
                #![trigger channel_state@.contains_key(t2)]
                channel_state@.contains_key(t2) == (if prefix_contains(ts, i + 1, t2) {
                    spec_current(entries, games@, t2) is Some
                } else {
                    cleaned.contains_key(t2)
                }) by {
                lemma_prefix_contains_step(ts, i as int, t2);
            }
            assert forall|t2: u64|
                #![trigger channel_state@[t2]]
                channel_state@.contains_key(t2) implies channel_state@[t2] == (if prefix_contains(
                ts,
                i + 1,
                t2,
            ) {
                spec_current(entries, games@, t2)->0
            } else {
                cleaned[t2]
            }) by {
                lemma_prefix_contains_step(ts, i as int, t2);
            }
        }
    }
    proof {
        targets.lemma_view();
        assert forall|t: u64|
            #![trigger channel_state@.contains_key(t)]
            channel_state@.contains_key(t) == (targets@.contains(t) && spec_current(
                entries,
                games@,
                t,
            ) is Some) by {
            lemma_prefix_contains_all(ts, t);
            if targets@.contains(t) {
                assert(ts.to_set().contains(t));
                assert(ts.contains(t));
            }
            if channel_state@.contains_key(t) && !prefix_contains(ts, n as int, t) {
                assert(cleaned.contains_key(t));
                assert(targets@.contains(t));
                assert(ts.contains(t));
            }
        }
        assert forall|t: u64|
            #![trigger channel_state@[t]]
            channel_state@.contains_key(t) implies Some(channel_state@[t]) == spec_current(
            entries,
            games@,
            t,
        ) by {
            lemma_prefix_contains_all(ts, t);
            if !prefix_contains(ts, n as int, t) {
                assert(cleaned.contains_key(t));
                assert(targets@.contains(t));
                assert(ts.contains(t));
            }
        }
    }
    (update_output, ping)
}

} // verus!

use crate::render::{embeds_spec, message_content_seq, render_lines_edit_message,
    render_lines_message, RenderedMessage};
use crate::text::{dec_seq, lemma_dec_len_u64, u64_to_string, uuid_seq, uuid_to_string};

verus! {

/// One resolved row of a channel's status output.
pub struct OutputEntry {
    pub username: String,
    pub game_name: String,
    pub game: u64,
    pub server: u128,
}

/// One status line: the target's name linked to the server it was seen on.
pub open spec fn output_line_seq(
    username: Seq<char>,
    game_name: Seq<char>,
    game: int,
    server: u128,
) -> Seq<char> {
    username + ": ["@ + game_name + "](http://www.roblox.com/home?placeId="@ + dec_seq(game)
        + "&gameId="@ + uuid_seq(server) + ")"@
}

fn output_line(e: &OutputEntry) -> (r: String)
    ensures
        r@ == output_line_seq(e.username@, e.game_name@, e.game as int, e.server),
{
    let mut r = String::new();
    r.append(e.username.as_str());
    r.append(": [");
    r.append(e.game_name.as_str());
    r.append("](http://www.roblox.com/home?placeId=");
    let g = u64_to_string(e.game);
    r.append(g.as_str());
    r.append("&gameId=");
    let s = uuid_to_string(e.server);
    r.append(s.as_str());
    r.append(")");
    proof {
        assert(r@ =~= output_line_seq(e.username@, e.game_name@, e.game as int, e.server));
    }
    r
}

/// The status lines of a set of resolved entries, in order.
pub open spec fn output_lines_of(entries: Seq<OutputEntry>) -> Seq<Seq<char>> {
    entries.map_values(
        |e: OutputEntry| output_line_seq(e.username@, e.game_name@, e.game as int, e.server),
    )
}

/// The title above a channel's status output.
pub open spec fn channel_title_seq(channel: int) -> Seq<char> {
    "Tracking output for channel <#"@ + dec_seq(channel) + ">:"@
}

/// The content above the output: the notified role's mention, when a ping is
/// owed and a role is set.
pub open spec fn role_mention_seq(notified_role: Option<u64>) -> Seq<char> {
    match notified_role {
        Some(role) => "<@&"@ + dec_seq(role as int) + ">"@,
        None => Seq::empty(),
    }
}

fn channel_title(channel: u64) -> (r: String)
    ensures
        r@ == channel_title_seq(channel as int),
        r@.len() <= 60,
{
    let mut r = String::new();
    r.append("Tracking output for channel <#");
    let c = u64_to_string(channel);
    r.append(c.as_str());
    r.append(">:");
    proof {
        reveal_strlit("Tracking output for channel <#");
        reveal_strlit(">:");
        lemma_dec_len_u64(channel as int);
        assert(r@ =~= channel_title_seq(channel as int));
    }
    r
}

fn role_mention(notified_role: Option<u64>) -> (r: String)
    ensures
        r@ == role_mention_seq(notified_role),
{
    match notified_role {
        Some(role) => {
            let mut r = String::new();
            r.append("<@&");
            let v = u64_to_string(role);
            r.append(v.as_str());
            r.append(">");
            proof {
                assert(r@ =~= role_mention_seq(notified_role));
            }
            r
        },
        None => {
            let r = String::new();
            proof {
                assert(r@ =~= role_mention_seq(notified_role));
            }
            r
        },
    }
}

fn output_lines(entries: &Vec<OutputEntry>) -> (r: Vec<String>)
    ensures
        crate::render::views(r@) == output_lines_of(entries@),
{
    let n = entries.len();
    let mut r: Vec<String> = Vec::new();
    for i in 0..n
        invariant
            n == entries@.len(),
            crate::render::views(r@) == output_lines_of(entries@.subrange(0, i as int)),
    {
        let line = output_line(&entries[i]);
        let ghost prevec = r@;
        let ghost pre = crate::render::views(r@);
        r.push(line);
        proof {
            assert(r@ =~= prevec.push(r@[prevec.len() as int]));
            assert(crate::render::views(r@) =~= pre.push(r@[prevec.len() as int]@));
            assert(entries@.subrange(0, i + 1).drop_last() =~= entries@.subrange(0, i as int));
            assert(entries@.subrange(0, i + 1)[i as int] == entries@[i as int]);
            assert(crate::render::views(r@) =~= output_lines_of(entries@.subrange(0, i + 1)));
        }
    }
    proof {
        assert(entries@.subrange(0, n as int) =~= entries@);
    }
    r
}

/// Renders a channel's status output twice: the message to send when no pin
/// exists yet, and the edit applied to the existing pin. The content pings
/// the notified role exactly when one is handed in.
pub fn generate_tracking_output(
    entries: &Vec<OutputEntry>,
    channel: u64,
    notified_role: Option<u64>,
) -> (r: (RenderedMessage, RenderedMessage))
    ensures
        ({
            let lv = output_lines_of(entries@);
            let tv = Some(channel_title_seq(channel as int));
            &&& embeds_spec(r.0.embeds@, lv, tv)
            &&& r.0.content matches Some(c) && c@ == message_content_seq(
                role_mention_seq(notified_role),
                lv,
                tv,
            )
            &&& embeds_spec(r.1.embeds@, lv, tv)
            &&& r.1.content matches Some(c) && c@ == message_content_seq(
                role_mention_seq(notified_role),
                lv,
                tv,
            )
        }),
{
    let content = role_mention(notified_role);
    let title_a = channel_title(channel);
    let title_b = channel_title(channel);
    let lines_a = output_lines(entries);
    let lines_b = output_lines(entries);
    let created = render_lines_message(content.as_str(), lines_a, Some(title_a));
    let edited = render_lines_edit_message(content.as_str(), lines_b, Some(title_b));
    (created, edited)
}

} // verus!
