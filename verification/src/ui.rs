use vstd::prelude::*;
use vstd::string::StringExecFns;

use crate::keybind::{decimal, digit_char, fires_on, InputEvent, Shortcut};

verus! {

/// The tabs of the window.
#[derive(Clone, Copy, PartialEq, Eq, Structural, Debug)]
pub enum Tab {
    Comparison,
    Paths,
    Triggers,
    Config,
    Credits,
    CustomShapes,
}

/// The kinds of custom shapes.
#[derive(Clone, Copy, PartialEq, Eq, Structural, Debug)]
pub enum ShapeType {
    Box,
    Sphere,
    Cylinder,
}

/// The keybinds that `check_input` looks for.
#[derive(Clone, Copy, Debug)]
pub struct Keybinds {
    pub start: Shortcut,
    pub stop: Shortcut,
    pub reset: Shortcut,
    pub clear: Shortcut,
    pub teleport: [Shortcut; 2],
    pub spawn_teleport: [Shortcut; 2],
}

/// What a keybind asks for.
#[derive(Clone, Copy, PartialEq, Eq, Structural, Debug)]
pub enum InputAction {
    StartRecording,
    StopRecording,
    /// Place the trigger `index` where the player stands.
    SpawnTrigger { index: usize },
    ResetRecording,
    ClearTriggers,
    Teleport { index: usize },
    SpawnTeleport { index: usize },
}

/// The action of one keybind when it fires on the event, or none.
pub open spec fn when_fires(s: Shortcut, e: InputEvent, a: InputAction) -> Seq<InputAction> {
    if fires_on(s, e) {
        seq![a]
    } else {
        Seq::empty()
    }
}

/// The keybinds with the action each asks for, in the order they are
/// checked: start, stop (each a recording command in direct mode and a
/// trigger placement otherwise), reset, clear, the two teleports and the two
/// teleport placements.
pub open spec fn bound_actions(b: Keybinds, direct: bool) -> Seq<(Shortcut, InputAction)> {
    seq![
        (b.start, if direct { InputAction::StartRecording } else { InputAction::SpawnTrigger { index: 0 } }),
        (b.stop, if direct { InputAction::StopRecording } else { InputAction::SpawnTrigger { index: 1 } }),
        (b.reset, InputAction::ResetRecording),
        (b.clear, InputAction::ClearTriggers),
        (b.teleport[0], InputAction::Teleport { index: 0 }),
        (b.teleport[1], InputAction::Teleport { index: 1 }),
        (b.spawn_teleport[0], InputAction::SpawnTeleport { index: 0 }),
        (b.spawn_teleport[1], InputAction::SpawnTeleport { index: 1 }),
    ]
}

/// The actions of the keybinds of the list that fire on the event, in order.
pub open spec fn fired(pairs: Seq<(Shortcut, InputAction)>, e: InputEvent) -> Seq<InputAction>
    decreases pairs.len(),
{
    if pairs.len() == 0 {
        Seq::empty()
    } else {
        fired(pairs.drop_last(), e) + when_fires(pairs.last().0, e, pairs.last().1)
    }
}

/// The actions one event asks for.
pub open spec fn actions_for(b: Keybinds, direct: bool, e: InputEvent) -> Seq<InputAction> {
    fired(bound_actions(b, direct), e)
}

/// The actions a list of events asks for, event by event.
pub open spec fn actions_for_all(b: Keybinds, direct: bool, es: Seq<InputEvent>) -> Seq<InputAction>
    decreases es.len(),
{
    if es.len() == 0 {
        Seq::empty()
    } else {
        actions_for_all(b, direct, es.drop_last()) + actions_for(b, direct, es.last())
    }
}

/// The click modifier: 2 while ctrl is held, else 1 while shift is held,
/// else 0.
pub open spec fn click_modifier(shift: bool, ctrl: bool) -> u8 {
    if ctrl {
        2
    } else if shift {
        1
    } else {
        0
    }
}

/// Appends the action when the keybind fires on the event.
fn push_when_fires(out: &mut Vec<InputAction>, s: &Shortcut, e: &InputEvent, a: InputAction)
    ensures
        final(out)@ == old(out)@ + when_fires(*s, *e, a),
{
    if s.compare_to_event(e) {
        out.push(a);
        assert(final(out)@ =~= old(out)@ + seq![a]);
    } else {
        assert(old(out)@ + Seq::<InputAction>::empty() =~= old(out)@);
    }
}

/// Appends the actions that the keybinds ask for on one event.
fn append_actions(out: &mut Vec<InputAction>, binds: &Keybinds, direct_mode: bool, e: &InputEvent)
    ensures
        final(out)@ == old(out)@ + actions_for(*binds, direct_mode, *e),
{
    let start = if direct_mode { InputAction::StartRecording } else { InputAction::SpawnTrigger { index: 0 } };
    let stop = if direct_mode { InputAction::StopRecording } else { InputAction::SpawnTrigger { index: 1 } };
    let pairs = [
        (binds.start, start),
        (binds.stop, stop),
        (binds.reset, InputAction::ResetRecording),
        (binds.clear, InputAction::ClearTriggers),
        (binds.teleport[0], InputAction::Teleport { index: 0 }),
        (binds.teleport[1], InputAction::Teleport { index: 1 }),
        (binds.spawn_teleport[0], InputAction::SpawnTeleport { index: 0 }),
        (binds.spawn_teleport[1], InputAction::SpawnTeleport { index: 1 }),
    ];
    assert(pairs@ =~= bound_actions(*binds, direct_mode));
    let ghost o = out@;
    let mut j: usize = 0;
    while j < 8
        invariant
            0 <= j <= 8,
            pairs@ == bound_actions(*binds, direct_mode),
            out@ == o + fired(pairs@.take(j as int), *e),
        decreases 8 - j,
    {
        let ghost prev = out@;
        push_when_fires(out, &pairs[j].0, e, pairs[j].1);
        proof {
            assert(pairs@.take(j + 1).drop_last() =~= pairs@.take(j as int));
            assert(pairs@.take(j + 1).last() == pairs@[j as int]);
            assert(out@ =~= o + fired(pairs@.take(j + 1), *e));
        }
        j = j + 1;
    }
    proof {
        assert(pairs@.take(8) =~= pairs@);
    }
}

/// The click modifier for the held modifier keys, and the actions that the
/// keybinds ask for on the events, as `click_modifier` and
/// `actions_for_all` say.
pub fn check_input(binds: &Keybinds, direct_mode: bool, shift: bool, ctrl: bool, events: &Vec<InputEvent>) -> (r: (
    u8,
    Vec<InputAction>,
))
    ensures
        r.0 == click_modifier(shift, ctrl),
        r.1@ == actions_for_all(*binds, direct_mode, events@),
{
    let mut modifier: u8 = 0;
    if shift {
        modifier = 1;
    }
    if ctrl {
        modifier = 2;
    }
    let mut out: Vec<InputAction> = Vec::new();
    let mut i: usize = 0;
    while i < events.len()
        invariant
            0 <= i <= events.len(),
            out@ == actions_for_all(*binds, direct_mode, events@.take(i as int)),
        decreases events.len() - i,
    {
        let e = &events[i];
        let ghost before = out@;
        append_actions(&mut out, binds, direct_mode, e);
        proof {
            assert(events@.take(i + 1).drop_last() =~= events@.take(i as int));
            assert(events@.take(i + 1).last() == *e);
        }
        i = i + 1;
    }
    proof {
        assert(events@.take(events.len() as int) =~= events@);
    }
    (modifier, out)
}

/// The text padded with leading zeros to at least `width` characters.
pub open spec fn zero_padded(t: Seq<char>, width: nat) -> Seq<char> {
    if t.len() >= width {
        t
    } else {
        Seq::new((width - t.len()) as nat, |i: int| '0') + t
    }
}

/// The timer text for a time in milliseconds: minutes (at least two
/// digits), a colon, seconds (two digits), a dot, and milliseconds (three
/// digits).
pub open spec fn timer_text_of(time: u64) -> Seq<char> {
    zero_padded(decimal((time / 60000) as nat), 2) + seq![':'] + zero_padded(
        decimal(((time % 60000) / 1000) as nat),
        2,
    ) + seq!['.'] + zero_padded(decimal((time % 1000) as nat), 3)
}

/// The text of one decimal digit.
fn digit_str(d: u64) -> (r: &'static str)
    requires
        d < 10,
    ensures
        r@ == seq![digit_char(d as int)],
{
    proof {
        reveal_strlit("0");
        reveal_strlit("1");
        reveal_strlit("2");
        reveal_strlit("3");
        reveal_strlit("4");
        reveal_strlit("5");
        reveal_strlit("6");
        reveal_strlit("7");
        reveal_strlit("8");
        reveal_strlit("9");
    }
    if d == 0 {
        assert(digit_char(0) == '0');
        "0"
    } else if d == 1 {
        assert(digit_char(1) == '1');
        "1"
    } else if d == 2 {
        assert(digit_char(2) == '2');
        "2"
    } else if d == 3 {
        assert(digit_char(3) == '3');
        "3"
    } else if d == 4 {
        assert(digit_char(4) == '4');
        "4"
    } else if d == 5 {
        assert(digit_char(5) == '5');
        "5"
    } else if d == 6 {
        assert(digit_char(6) == '6');
        "6"
    } else if d == 7 {
        assert(digit_char(7) == '7');
        "7"
    } else if d == 8 {
        assert(digit_char(8) == '8');
        "8"
    } else {
        assert(digit_char(9) == '9');
        "9"
    }
}

/// Decimal texts are never empty, and grow by one digit with each factor
/// of ten.
proof fn lemma_decimal_len(n: nat)
    ensures
        decimal(n).len() >= 1,
        n < 10 ==> decimal(n).len() == 1,
        10 <= n < 100 ==> decimal(n).len() == 2,
        n >= 10 ==> decimal(n).len() >= 2,
        n >= 100 ==> decimal(n).len() >= 3,
    decreases n,
{
    if n >= 10 {
        lemma_decimal_len(n / 10);
    }
}

/// Appends the decimal text of `n` to `s`.
fn append_decimal(s: &mut String, n: u64)
    ensures
        final(s)@ == old(s)@ + decimal(n as nat),
    decreases n,
{
    if n >= 10 {
        append_decimal(s, n / 10);
        s.append(digit_str(n % 10));
        proof {
            assert(old(s)@ + decimal(n as nat) =~= old(s)@ + decimal((n / 10) as nat) + seq![
                digit_char((n % 10) as int),
            ]);
        }
    } else {
        s.append(digit_str(n));
    }
}

/// Appends the decimal text of `n`, padded with leading zeros to `width`.
fn append_padded(s: &mut String, n: u64, width: u64)
    requires
        width == 2 || width == 3,
    ensures
        final(s)@ == old(s)@ + zero_padded(decimal(n as nat), width as nat),
{
    proof {
        reveal_strlit("0");
        reveal_strlit("00");
        lemma_decimal_len(n as nat);
    }
    let ghost start = s@;
    let zeros: &str = if width == 3 && n < 10 {
        "00"
    } else if (width == 3 && n < 100) || (width == 2 && n < 10) {
        "0"
    } else {
        ""
    };
    proof {
        reveal_strlit("");
        let pad = if decimal(n as nat).len() >= width { 0nat } else { (width - decimal(n as nat).len()) as nat };
        assert(zeros@ =~= Seq::new(pad, |i: int| '0'));
    }
    s.append(zeros);
    append_decimal(s, n);
    proof {
        if decimal(n as nat).len() >= width {
            assert(s@ =~= start + decimal(n as nat));
        } else {
            assert(s@ =~= start + (Seq::new((width - decimal(n as nat).len()) as nat, |i: int| '0') + decimal(
                n as nat,
            )));
        }
    }
}

/// The text of the timer for a time in milliseconds, as `timer_text_of`
/// says: `mm:ss.mmm`.
pub fn timer_text(time: u64) -> (r: String)
    ensures
        r@ == timer_text_of(time),
{
    proof {
        reveal_strlit("");
        reveal_strlit(":");
        reveal_strlit(".");
    }
    let mut s = String::from_str("");
    append_padded(&mut s, time / 60000, 2);
    s.append(":");
    append_padded(&mut s, (time % 60000) / 1000, 2);
    s.append(".");
    append_padded(&mut s, time % 1000, 3);
    proof {
        assert(s@ =~= timer_text_of(time));
    }
    s
}

/// One of the keybinds of the list that fires on the event asks for the
/// action exactly when the action is among the fired ones.
proof fn lemma_fired_contains(pairs: Seq<(Shortcut, InputAction)>, e: InputEvent, a: InputAction)
    ensures
        fired(pairs, e).contains(a) <==> exists|k: int|
            0 <= k < pairs.len() && fires_on(pairs[k].0, e) && #[trigger] pairs[k].1 == a,
    decreases pairs.len(),
{
    if pairs.len() > 0 {
        let init = pairs.drop_last();
        lemma_fired_contains(init, e, a);
        let f = fired(init, e);
        let w = when_fires(pairs.last().0, e, pairs.last().1);
        let all = fired(pairs, e);
        assert(all == f + w);
        if all.contains(a) {
            let q = choose|q: int| 0 <= q < all.len() && all[q] == a;
            if q < f.len() {
                assert(f[q] == a);
                let k = choose|k: int| 0 <= k < init.len() && fires_on(init[k].0, e) && #[trigger] init[k].1 == a;
                assert(pairs[k] == init[k]);
            } else {
                assert(w[q - f.len()] == a);
                assert(pairs[pairs.len() - 1].1 == a);
            }
        }
        if exists|k: int| 0 <= k < pairs.len() && fires_on(pairs[k].0, e) && #[trigger] pairs[k].1 == a {
            let k = choose|k: int| 0 <= k < pairs.len() && fires_on(pairs[k].0, e) && #[trigger] pairs[k].1 == a;
            if k < init.len() {
                assert(init[k] == pairs[k]);
                assert(f.contains(a));
                let q = choose|q: int| 0 <= q < f.len() && f[q] == a;
                assert(all[q] == a);
            } else {
                assert(w[0] == a);
                assert(all[f.len() as int] == a);
            }
        }
    }
}

/// What each keybind asks for: on an event, a teleport or teleport
/// placement keybind `i` fires exactly when the actions hold the teleport
/// or placement with index `i`; the reset and clear keybinds give reset and
/// clear; in direct mode the start and stop keybinds start and stop the
/// recording, and otherwise they place the start and the finish trigger.
pub proof fn law_keybind_actions(b: Keybinds, direct: bool, e: InputEvent, i: int)
    requires
        0 <= i < 2,
    ensures
        actions_for(b, direct, e).contains(InputAction::Teleport { index: i as usize }) <==> fires_on(b.teleport[i], e),
        actions_for(b, direct, e).contains(InputAction::SpawnTeleport { index: i as usize }) <==> fires_on(
            b.spawn_teleport[i],
            e,
        ),
        actions_for(b, direct, e).contains(InputAction::ResetRecording) <==> fires_on(b.reset, e),
        actions_for(b, direct, e).contains(InputAction::ClearTriggers) <==> fires_on(b.clear, e),
        direct ==> (actions_for(b, direct, e).contains(InputAction::StartRecording) <==> fires_on(b.start, e)),
        direct ==> (actions_for(b, direct, e).contains(InputAction::StopRecording) <==> fires_on(b.stop, e)),
        direct ==> !actions_for(b, direct, e).contains(InputAction::SpawnTrigger { index: 0 }),
        direct ==> !actions_for(b, direct, e).contains(InputAction::SpawnTrigger { index: 1 }),
        !direct ==> (actions_for(b, direct, e).contains(InputAction::SpawnTrigger { index: 0 }) <==> fires_on(b.start, e)),
        !direct ==> (actions_for(b, direct, e).contains(InputAction::SpawnTrigger { index: 1 }) <==> fires_on(b.stop, e)),
        !direct ==> !actions_for(b, direct, e).contains(InputAction::StartRecording),
        !direct ==> !actions_for(b, direct, e).contains(InputAction::StopRecording),
{
    let pairs = bound_actions(b, direct);
    let acts = seq![
        InputAction::Teleport { index: i as usize },
        InputAction::SpawnTeleport { index: i as usize },
        InputAction::ResetRecording,
        InputAction::ClearTriggers,
        InputAction::StartRecording,
        InputAction::StopRecording,
        InputAction::SpawnTrigger { index: 0 },
        InputAction::SpawnTrigger { index: 1 },
    ];
    assert forall|m: int| 0 <= m < acts.len() implies (actions_for(b, direct, e).contains(#[trigger] acts[m])
        <==> exists|k: int| 0 <= k < pairs.len() && fires_on(pairs[k].0, e) && #[trigger] pairs[k].1 == acts[m]) by {
        lemma_fired_contains(pairs, e, acts[m]);
    }
    assert(pairs[0].0 == b.start);
    assert(pairs[1].0 == b.stop);
    assert(pairs[2] == (b.reset, InputAction::ResetRecording));
    assert(pairs[3] == (b.clear, InputAction::ClearTriggers));
    assert(pairs[4] == (b.teleport[0], InputAction::Teleport { index: 0 }));
    assert(pairs[5] == (b.teleport[1], InputAction::Teleport { index: 1 }));
    assert(pairs[6] == (b.spawn_teleport[0], InputAction::SpawnTeleport { index: 0 }));
    assert(pairs[7] == (b.spawn_teleport[1], InputAction::SpawnTeleport { index: 1 }));
    assert(acts[0] == InputAction::Teleport { index: i as usize });
    assert(acts[1] == InputAction::SpawnTeleport { index: i as usize });
    assert(acts[2] == InputAction::ResetRecording);
    assert(acts[3] == InputAction::ClearTriggers);
    assert(acts[4] == InputAction::StartRecording);
    assert(acts[5] == InputAction::StopRecording);
    assert(acts[6] == InputAction::SpawnTrigger { index: 0 });
    assert(acts[7] == InputAction::SpawnTrigger { index: 1 });
    if i == 0 {
        assert(pairs[4].1 == acts[0]);
        assert(pairs[6].1 == acts[1]);
    } else {
        assert(pairs[5].1 == acts[0]);
        assert(pairs[7].1 == acts[1]);
    }
    assert(pairs[2].1 == acts[2]);
    assert(pairs[3].1 == acts[3]);
    if direct {
        assert(pairs[0].1 == acts[4]);
        assert(pairs[1].1 == acts[5]);
    } else {
        assert(pairs[0].1 == acts[6]);
        assert(pairs[1].1 == acts[7]);
    }
}

} // verus!
