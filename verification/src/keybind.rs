use vstd::prelude::*;
use vstd::string::{StrSliceExecFns, StringExecFns};

use crate::error::Error;

verus! {

/// The modifier keys held with a key.
#[derive(Clone, Copy, PartialEq, Eq, Structural, Debug)]
pub struct Modifiers {
    pub alt: bool,
    pub ctrl: bool,
    pub shift: bool,
    pub mac_cmd: bool,
    pub command: bool,
}

/// A key, by its code, with the modifiers held with it.
#[derive(Clone, Copy, PartialEq, Eq, Structural, Debug)]
pub struct KeyboardShortcut {
    pub modifiers: Modifiers,
    pub key: u8,
}

/// A keybind: a keyboard shortcut, or none.
#[derive(Clone, Copy, PartialEq, Eq, Structural, Debug)]
pub struct Shortcut {
    pub keyboard: Option<KeyboardShortcut>,
}

/// An input event, as far as keybinds care: a key going down or up with
/// its modifiers, or anything else.
#[derive(Clone, Copy, PartialEq, Eq, Structural, Debug)]
pub enum InputEvent {
    Key { key: u8, pressed: bool, repeat: bool, modifiers: Modifiers },
    Other,
}

/// The character of the decimal digit `d`.
pub open spec fn digit_char(d: int) -> char {
    ((d + 48) as u32) as char
}

/// Whether a character is a decimal digit.
pub open spec fn is_digit(c: char) -> bool {
    '0' <= c && c <= '9'
}

/// The decimal text of `n`, without leading zeros.
pub open spec fn decimal(n: nat) -> Seq<char>
    decreases n,
{
    if n < 10 {
        seq![digit_char(n as int)]
    } else {
        decimal(n / 10).push(digit_char((n % 10) as int))
    }
}

/// The value of a text of decimal digits.
pub open spec fn digits_value(t: Seq<char>) -> nat
    decreases t.len(),
{
    if t.len() == 0 {
        0
    } else {
        digits_value(t.drop_last()) * 10 + ((t.last() as int) - 48) as nat
    }
}

/// Whether a text reads as a `u8`: one or more decimal digits whose value
/// is at most 255.
pub open spec fn reads_as_u8(t: Seq<char>) -> bool {
    &&& t.len() > 0
    &&& forall|i: int| 0 <= i < t.len() ==> is_digit(#[trigger] t[i])
    &&& digits_value(t) <= 255
}

/// The pieces of `s` between the separator `c`, as `str::split` gives them:
/// always one more than the number of separators.
pub open spec fn split_on(s: Seq<char>, c: char) -> Seq<Seq<char>>
    decreases s.len(),
{
    if s.len() == 0 {
        seq![Seq::<char>::empty()]
    } else {
        let r = split_on(s.drop_last(), c);
        if s.last() == c {
            r.push(Seq::empty())
        } else {
            r.update(r.len() - 1, r.last().push(s.last()))
        }
    }
}

/// The names of the modifiers, as keybind texts write them.
pub open spec fn alt_name() -> Seq<char> {
    seq!['a', 'l', 't']
}

pub open spec fn ctrl_name() -> Seq<char> {
    seq!['c', 't', 'r', 'l']
}

pub open spec fn shift_name() -> Seq<char> {
    seq!['s', 'h', 'i', 'f', 't']
}

pub open spec fn mac_cmd_name() -> Seq<char> {
    seq!['m', 'a', 'c', '_', 'c', 'm', 'd']
}

pub open spec fn command_name() -> Seq<char> {
    seq!['c', 'o', 'm', 'm', 'a', 'n', 'd']
}

/// The text that comes before the key code: the name of each held modifier,
/// each followed by `+`, in the order alt, ctrl, shift, mac_cmd, command.
pub open spec fn modifier_prefix(m: Modifiers) -> Seq<char> {
    (if m.alt { alt_name().push('+') } else { Seq::empty() }) + (if m.ctrl {
        ctrl_name().push('+')
    } else {
        Seq::empty()
    }) + (if m.shift { shift_name().push('+') } else { Seq::empty() }) + (if m.mac_cmd {
        mac_cmd_name().push('+')
    } else {
        Seq::empty()
    }) + (if m.command { command_name().push('+') } else { Seq::empty() })
}

/// The text of a keybind: empty without a keyboard shortcut, else the
/// modifier prefix and the decimal key code.
pub open spec fn shortcut_text(s: Shortcut) -> Seq<char> {
    match s.keyboard {
        None => Seq::empty(),
        Some(k) => modifier_prefix(k.modifiers) + decimal(k.key as nat),
    }
}

/// The modifiers named among the pieces; other names are ignored.
pub open spec fn named_modifiers(pieces: Seq<Seq<char>>) -> Modifiers {
    Modifiers {
        alt: pieces.contains(alt_name()),
        ctrl: pieces.contains(ctrl_name()),
        shift: pieces.contains(shift_name()),
        mac_cmd: pieces.contains(mac_cmd_name()),
        command: pieces.contains(command_name()),
    }
}

/// What reading a keybind text gives: the text is cut at each `+`; the
/// last piece is the key code and must read as a `u8`, and the other pieces
/// name modifiers.
pub open spec fn parsed_shortcut(t: Seq<char>) -> Option<Shortcut> {
    let pieces = split_on(t, '+');
    if reads_as_u8(pieces.last()) {
        Some(
            Shortcut {
                keyboard: Some(
                    KeyboardShortcut {
                        modifiers: named_modifiers(pieces.drop_last()),
                        key: digits_value(pieces.last()) as u8,
                    },
                ),
            },
        )
    } else {
        None
    }
}

/// Whether the keybind fires on the event: a key press whose key and
/// modifiers are those of the keyboard shortcut.
pub open spec fn fires_on(s: Shortcut, e: InputEvent) -> bool {
    match (e, s.keyboard) {
        (InputEvent::Key { key, pressed, modifiers, .. }, Some(k)) => modifiers == k.modifiers && key == k.key
            && pressed,
        _ => false,
    }
}

/// The text of one decimal digit.
fn digit_text(d: u8) -> (r: &'static str)
    requires
        d < 10,
    ensures
        r@ == seq![digit_char(d as int)],
{
    proof {
        reveal_strlit("0");
        reveal_strlit("1");
        reveal_strlit("2");
        reveal_strlit("3");
        reveal_strlit("4");
        reveal_strlit("5");
        reveal_strlit("6");
        reveal_strlit("7");
        reveal_strlit("8");
        reveal_strlit("9");
    }
    if d == 0 {
        assert(digit_char(0) == '0');
        "0"
    } else if d == 1 {
        assert(digit_char(1) == '1');
        "1"
    } else if d == 2 {
        assert(digit_char(2) == '2');
        "2"
    } else if d == 3 {
        assert(digit_char(3) == '3');
        "3"
    } else if d == 4 {
        assert(digit_char(4) == '4');
        "4"
    } else if d == 5 {
        assert(digit_char(5) == '5');
        "5"
    } else if d == 6 {
        assert(digit_char(6) == '6');
        "6"
    } else if d == 7 {
        assert(digit_char(7) == '7');
        "7"
    } else if d == 8 {
        assert(digit_char(8) == '8');
        "8"
    } else {
        assert(digit_char(9) == '9');
        "9"
    }
}

/// Appends the decimal text of `n` to `s`.
fn append_decimal(s: &mut String, n: u8)
    ensures
        final(s)@ == old(s)@ + decimal(n as nat),
{
    if n >= 100 {
        s.append(digit_text(n / 100));
        s.append(digit_text((n / 10) % 10));
        s.append(digit_text(n % 10));
        proof {
            let k = n as nat;
            assert(decimal(k / 100) == seq![digit_char((k / 100) as int)]);
            assert((k / 10) / 10 == k / 100);
            assert(decimal(k / 10) == decimal(k / 100).push(digit_char(((k / 10) % 10) as int)));
            assert(old(s)@ + decimal(k) =~= old(s)@ + seq![digit_char((k / 100) as int)] + seq![
                digit_char(((k / 10) % 10) as int),
            ] + seq![digit_char((k % 10) as int)]);
        }
    } else if n >= 10 {
        s.append(digit_text(n / 10));
        s.append(digit_text(n % 10));
        proof {
            let k = n as nat;
            assert(decimal(k / 10) == seq![digit_char((k / 10) as int)]);
            assert(old(s)@ + decimal(k) =~= old(s)@ + seq![digit_char((k / 10) as int)] + seq![
                digit_char((k % 10) as int),
            ]);
        }
    } else {
        s.append(digit_text(n));
    }
}

impl Shortcut {
    /// The keybind text: the held modifiers, each followed by `+`, then the
    /// key code in decimal; the empty text for no keyboard shortcut.
    pub fn to_string(&self) -> (r: String)
        ensures
            r@ == shortcut_text(*self),
    {
        let keyboard = match self.keyboard {
            None => {
                proof {
                    reveal_strlit("");
                }
                return String::from_str("");
            },
            Some(k) => k,
        };
        proof {
            reveal_strlit("");
            reveal_strlit("alt+");
            reveal_strlit("ctrl+");
            reveal_strlit("shift+");
            reveal_strlit("mac_cmd+");
            reveal_strlit("command+");
        }
        let mut s = String::from_str("");
        let m = keyboard.modifiers;
        let ghost p0 = s@;
        if m.alt {
            s.append("alt+");
        }
        let ghost p1 = s@;
        if m.ctrl {
            s.append("ctrl+");
        }
        let ghost p2 = s@;
        if m.shift {
            s.append("shift+");
        }
        let ghost p3 = s@;
        if m.mac_cmd {
            s.append("mac_cmd+");
        }
        let ghost p4 = s@;
        if m.command {
            s.append("command+");
        }
        proof {
            assert("alt+"@ =~= alt_name().push('+'));
            assert("ctrl+"@ =~= ctrl_name().push('+'));
            assert("shift+"@ =~= shift_name().push('+'));
            assert("mac_cmd+"@ =~= mac_cmd_name().push('+'));
            assert("command+"@ =~= command_name().push('+'));
            assert(s@ =~= modifier_prefix(m));
        }
        append_decimal(&mut s, keyboard.key);
        s
    }

    /// Reads a keybind text as `parsed_shortcut` says; a text whose last
    /// piece is no `u8` is refused.
    pub fn from_string(stringcut: &str) -> (r: Result<Shortcut, Error>)
        ensures
            match parsed_shortcut(stringcut@) {
                Some(s) => r == Ok::<Shortcut, Error>(s),
                None => r matches Err(Error::IO { msg }) && msg@ == "p"@,
            },
    {
        let n = stringcut.unicode_len();
        let mut alt = false;
        let mut ctrl = false;
        let mut shift = false;
        let mut mac_cmd = false;
        let mut command = false;
        let mut piece: Vec<char> = Vec::new();
        let mut i: usize = 0;
        while i < n
            invariant
                n == stringcut@.len(),
                0 <= i <= n,
                piece@ == split_on(stringcut@.take(i as int), '+').last(),
                (Modifiers { alt, ctrl, shift, mac_cmd, command }) == named_modifiers(
                    split_on(stringcut@.take(i as int), '+').drop_last(),
                ),
            decreases n - i,
        {
            let c = stringcut.get_char(i);
            let ghost before = stringcut@.take(i as int);
            let ghost pieces = split_on(before, '+');
            proof {
                lemma_split_len(before, '+');
                assert(stringcut@.take(i + 1).drop_last() =~= before);
                assert(stringcut@.take(i + 1).last() == c);
            }
            if c == '+' {
                proof {
                    let after = split_on(stringcut@.take(i + 1), '+');
                    assert(after == pieces.push(Seq::empty()));
                    assert(after.drop_last() =~= pieces.drop_last().push(piece@));
                    lemma_named_push(pieces.drop_last(), piece@);
                }
                if is_name(&piece, "alt") {
                    alt = true;
                } else if is_name(&piece, "ctrl") {
                    ctrl = true;
                } else if is_name(&piece, "shift") {
                    shift = true;
                } else if is_name(&piece, "mac_cmd") {
                    mac_cmd = true;
                } else if is_name(&piece, "command") {
                    command = true;
                }
                piece = Vec::new();
                proof {
                    reveal_strlit("alt");
                    reveal_strlit("ctrl");
                    reveal_strlit("shift");
                    reveal_strlit("mac_cmd");
                    reveal_strlit("command");
                    assert("alt"@ =~= alt_name());
                    assert("ctrl"@ =~= ctrl_name());
                    assert("shift"@ =~= shift_name());
                    assert("mac_cmd"@ =~= mac_cmd_name());
                    assert("command"@ =~= command_name());
                    lemma_names_distinct();
                }
            } else {
                piece.push(c);
                proof {
                    let after = split_on(stringcut@.take(i + 1), '+');
                    assert(after == pieces.update(pieces.len() - 1, pieces.last().push(c)));
                    assert(after.drop_last() =~= pieces.drop_last());
                }
            }
            i = i + 1;
        }
        proof {
            assert(stringcut@.take(n as int) =~= stringcut@);
        }
        match read_u8(&piece) {
            Some(key) => Ok(
                Shortcut {
                    keyboard: Some(
                        KeyboardShortcut { modifiers: Modifiers { alt, ctrl, shift, mac_cmd, command }, key },
                    ),
                },
            ),
            None => {
                proof {
                    reveal_strlit("p");
                }
                Err(Error::IO { msg: String::from_str("p") })
            },
        }
    }

    /// Whether this keybind fires on the event, as `fires_on` says.
    pub fn compare_to_event(&self, event: &InputEvent) -> (r: bool)
        ensures
            r == fires_on(*self, *event),
    {
        match (event, &self.keyboard) {
            (InputEvent::Key { key, pressed, modifiers, .. }, Some(k)) => *modifiers == k.modifiers && *key
                == k.key && *pressed,
            _ => false,
        }
    }
}

/// Whether the characters of `piece` are those of `name`.
fn is_name(piece: &Vec<char>, name: &str) -> (r: bool)
    ensures
        r == (piece@ == name@),
{
    let n = name.unicode_len();
    if piece.len() != n {
        return false;
    }
    let mut i: usize = 0;
    while i < n
        invariant
            n == name@.len(),
            n == piece.len(),
            0 <= i <= n,
            forall|j: int| 0 <= j < i ==> piece@[j] == name@[j],
        decreases n - i,
    {
        if piece[i] != name.get_char(i) {
            return false;
        }
        i = i + 1;
    }
    proof {
        assert(piece@ =~= name@);
    }
    true
}

/// The value of a text that reads as a `u8`, or `None`.
fn read_u8(t: &Vec<char>) -> (r: Option<u8>)
    ensures
        reads_as_u8(t@) ==> r == Some(digits_value(t@) as u8),
        !reads_as_u8(t@) ==> r is None,
{
    if t.len() == 0 {
        return None;
    }
    let mut value: u32 = 0;
    let mut i: usize = 0;
    while i < t.len()
        invariant
            0 <= i <= t.len(),
            forall|j: int| 0 <= j < i ==> is_digit(#[trigger] t@[j]),
            value == digits_value(t@.take(i as int)),
            value <= 255,
        decreases t.len() - i,
    {
        let c = t[i];
        proof {
            assert(t@.take(i + 1).drop_last() =~= t@.take(i as int));
        }
        if !('0' <= c && c <= '9') {
            proof {
                assert(!is_digit(t@[i as int]));
            }
            return None;
        }
        let d = (c as u32) - 48;
        let next = value * 10 + d;
        if next > 255 {
            proof {
                lemma_digits_prefix_bound(t@, i as int + 1);
            }
            return None;
        }
        value = next;
        i = i + 1;
    }
    proof {
        assert(t@.take(i as int) =~= t@);
    }
    Some(value as u8)
}

/// The value of digits only grows as digits are added.
proof fn lemma_digits_prefix_bound(t: Seq<char>, k: int)
    requires
        0 < k <= t.len(),
    ensures
        (forall|j: int| 0 <= j < t.len() ==> is_digit(#[trigger] t[j])) ==> digits_value(t.take(k)) <= digits_value(t),
    decreases t.len() - k,
{
    if k < t.len() && (forall|j: int| 0 <= j < t.len() ==> is_digit(#[trigger] t[j])) {
        lemma_digits_prefix_bound(t, k + 1);
        assert(t.take(k + 1).drop_last() =~= t.take(k));
        assert(is_digit(t[k]));
    } else if k == t.len() {
        assert(t.take(k) =~= t);
    }
}

/// The split of a text has at least one piece.
proof fn lemma_split_len(s: Seq<char>, c: char)
    ensures
        split_on(s, c).len() >= 1,
    decreases s.len(),
{
    if s.len() > 0 {
        lemma_split_len(s.drop_last(), c);
    }
}

/// Naming one more piece adds the modifier it names.
proof fn lemma_named_push(pieces: Seq<Seq<char>>, p: Seq<char>)
    ensures
        named_modifiers(pieces.push(p)) == (Modifiers {
            alt: named_modifiers(pieces).alt || p == alt_name(),
            ctrl: named_modifiers(pieces).ctrl || p == ctrl_name(),
            shift: named_modifiers(pieces).shift || p == shift_name(),
            mac_cmd: named_modifiers(pieces).mac_cmd || p == mac_cmd_name(),
            command: named_modifiers(pieces).command || p == command_name(),
        }),
{
    let q = pieces.push(p);
    assert forall|x: Seq<char>| q.contains(x) <==> (pieces.contains(x) || x == p) by {
        if q.contains(x) {
            let k = choose|k: int| 0 <= k < q.len() && q[k] == x;
            if k < pieces.len() {
                assert(pieces[k] == x);
            }
        }
        if pieces.contains(x) {
            let k = choose|k: int| 0 <= k < pieces.len() && pieces[k] == x;
            assert(q[k] == x);
        }
        if x == p {
            assert(q[q.len() - 1] == x);
        }
    }
}

/// The modifier names differ from one another.
proof fn lemma_names_distinct()
    ensures
        alt_name() != ctrl_name(),
        alt_name() != shift_name(),
        alt_name() != mac_cmd_name(),
        alt_name() != command_name(),
        ctrl_name() != shift_name(),
        ctrl_name() != mac_cmd_name(),
        ctrl_name() != command_name(),
        shift_name() != mac_cmd_name(),
        shift_name() != command_name(),
        mac_cmd_name() != command_name(),
{
    assert(alt_name().len() != ctrl_name().len());
    assert(alt_name().len() != shift_name().len());
    assert(alt_name().len() != mac_cmd_name().len());
    assert(alt_name().len() != command_name().len());
    assert(ctrl_name().len() != shift_name().len());
    assert(ctrl_name().len() != mac_cmd_name().len());
    assert(ctrl_name().len() != command_name().len());
    assert(shift_name().len() != mac_cmd_name().len());
    assert(shift_name().len() != command_name().len());
    assert(mac_cmd_name()[0] != command_name()[0]);
}

/// The names of the held modifiers, in the order the prefix writes them.
pub open spec fn modifier_names(m: Modifiers) -> Seq<Seq<char>> {
    (if m.alt { seq![alt_name()] } else { Seq::empty() }) + (if m.ctrl {
        seq![ctrl_name()]
    } else {
        Seq::empty()
    }) + (if m.shift { seq![shift_name()] } else { Seq::empty() }) + (if m.mac_cmd {
        seq![mac_cmd_name()]
    } else {
        Seq::empty()
    }) + (if m.command { seq![command_name()] } else { Seq::empty() })
}

/// Splitting a text that ends in a piece without separators extends the
/// last piece.
proof fn lemma_split_plain_suffix(s: Seq<char>, t: Seq<char>, c: char)
    requires
        !t.contains(c),
    ensures
        split_on(s + t, c) == split_on(s, c).update(
            split_on(s, c).len() - 1,
            split_on(s, c).last() + t,
        ),
    decreases t.len(),
{
    lemma_split_len(s, c);
    if t.len() == 0 {
        assert(s + t =~= s);
        assert(split_on(s, c).last() + t =~= split_on(s, c).last());
        assert(split_on(s, c).update(split_on(s, c).len() - 1, split_on(s, c).last()) =~= split_on(s, c));
    } else {
        let t0 = t.drop_last();
        assert(!t0.contains(c)) by {
            if t0.contains(c) {
                let k = choose|k: int| 0 <= k < t0.len() && t0[k] == c;
                assert(t[k] == c);
            }
        }
        assert(t.last() != c) by {
            if t.last() == c {
                assert(t[t.len() - 1] == c);
            }
        }
        lemma_split_plain_suffix(s, t0, c);
        assert((s + t).drop_last() =~= s + t0);
        assert((s + t).last() == t.last());
        lemma_split_len(s + t0, c);
        assert(split_on(s, c).last() + t =~= (split_on(s, c).last() + t0).push(t.last()));
        assert(split_on(s + t, c) =~= split_on(s, c).update(
            split_on(s, c).len() - 1,
            split_on(s, c).last() + t,
        ));
    }
}

/// Appending a name and a separator to a text that splits into `names`
/// and an empty last piece splits into the names with the new one.
proof fn lemma_split_word(s: Seq<char>, names: Seq<Seq<char>>, w: Seq<char>)
    requires
        split_on(s, '+') == names.push(Seq::<char>::empty()),
        !w.contains('+'),
    ensures
        split_on(s + w.push('+'), '+') == names.push(w).push(Seq::<char>::empty()),
{
    lemma_split_plain_suffix(s, w, '+');
    assert(s + w.push('+') =~= (s + w).push('+'));
    assert((s + w.push('+')).drop_last() =~= s + w);
    assert(Seq::<char>::empty() + w =~= w);
    assert(split_on(s + w, '+') =~= names.push(w));
}

/// The modifier prefix splits into the names of the held modifiers and an
/// empty last piece.
proof fn lemma_split_prefix(m: Modifiers)
    ensures
        split_on(modifier_prefix(m), '+') == modifier_names(m).push(Seq::<char>::empty()),
{
    let e = Seq::<char>::empty();
    let a = if m.alt { alt_name().push('+') } else { e };
    let b = if m.ctrl { ctrl_name().push('+') } else { e };
    let c = if m.shift { shift_name().push('+') } else { e };
    let d = if m.mac_cmd { mac_cmd_name().push('+') } else { e };
    let f = if m.command { command_name().push('+') } else { e };
    let na = if m.alt { seq![alt_name()] } else { Seq::empty() };
    let nb = if m.ctrl { seq![ctrl_name()] } else { Seq::empty() };
    let nc = if m.shift { seq![shift_name()] } else { Seq::empty() };
    let nd = if m.mac_cmd { seq![mac_cmd_name()] } else { Seq::empty() };
    let nf = if m.command { seq![command_name()] } else { Seq::empty() };
    assert(split_on(e, '+') == Seq::<Seq<char>>::empty().push(e));
    assert(!alt_name().contains('+'));
    assert(!ctrl_name().contains('+'));
    assert(!shift_name().contains('+'));
    assert(!mac_cmd_name().contains('+'));
    assert(!command_name().contains('+'));
    if m.alt {
        lemma_split_word(e, Seq::empty(), alt_name());
        assert(e + a =~= a);
    } else {
        assert(e + a =~= e);
    }
    assert(e + a =~= a);
    assert(split_on(a, '+') == na.push(e)) by {
        if m.alt {
            assert(Seq::<Seq<char>>::empty().push(alt_name()) =~= na);
        } else {
            assert(Seq::<Seq<char>>::empty() =~= na);
        }
    }
    if m.ctrl {
        lemma_split_word(a, na, ctrl_name());
    } else {
        assert(a + b =~= a);
    }
    assert(split_on(a + b, '+') == (na + nb).push(e)) by {
        if m.ctrl {
            assert(na.push(ctrl_name()) =~= na + nb);
        } else {
            assert(na =~= na + nb);
        }
    }
    if m.shift {
        lemma_split_word(a + b, na + nb, shift_name());
    } else {
        assert(a + b + c =~= a + b);
    }
    assert(split_on(a + b + c, '+') == (na + nb + nc).push(e)) by {
        if m.shift {
            assert((na + nb).push(shift_name()) =~= na + nb + nc);
        } else {
            assert(na + nb =~= na + nb + nc);
        }
    }
    if m.mac_cmd {
        lemma_split_word(a + b + c, na + nb + nc, mac_cmd_name());
    } else {
        assert(a + b + c + d =~= a + b + c);
    }
    assert(split_on(a + b + c + d, '+') == (na + nb + nc + nd).push(e)) by {
        if m.mac_cmd {
            assert((na + nb + nc).push(mac_cmd_name()) =~= na + nb + nc + nd);
        } else {
            assert(na + nb + nc =~= na + nb + nc + nd);
        }
    }
    if m.command {
        lemma_split_word(a + b + c + d, na + nb + nc + nd, command_name());
    } else {
        assert(a + b + c + d + f =~= a + b + c + d);
    }
    assert(split_on(a + b + c + d + f, '+') == (na + nb + nc + nd + nf).push(e)) by {
        if m.command {
            assert((na + nb + nc + nd).push(command_name()) =~= na + nb + nc + nd + nf);
        } else {
            assert(na + nb + nc + nd =~= na + nb + nc + nd + nf);
        }
    }
}

/// The decimal text of a number is made of digits, reads back as the
/// number, and is never empty.
proof fn lemma_decimal_reads_back(n: nat)
    ensures
        decimal(n).len() > 0,
        forall|i: int| 0 <= i < decimal(n).len() ==> is_digit(#[trigger] decimal(n)[i]),
        digits_value(decimal(n)) == n,
    decreases n,
{
    if n >= 10 {
        lemma_decimal_reads_back(n / 10);
        let d = decimal(n / 10);
        assert(decimal(n).drop_last() =~= d);
        assert(decimal(n).last() == digit_char((n % 10) as int));
        assert((digit_char((n % 10) as int) as int) - 48 == n % 10);
        vstd::arithmetic::div_mod::lemma_fundamental_div_mod(n as int, 10);
        assert(digits_value(decimal(n)) == digits_value(d) * 10 + (n % 10));
        assert(digits_value(d) == n / 10);
        assert(digits_value(decimal(n)) == n);
        assert forall|i: int| 0 <= i < decimal(n).len() implies is_digit(#[trigger] decimal(n)[i]) by {
            if i < d.len() {
                assert(decimal(n)[i] == d[i]);
            }
        }
    } else {
        assert(decimal(n).drop_last() =~= Seq::<char>::empty());
        assert(digits_value(decimal(n).drop_last()) == 0);
        assert((digit_char(n as int) as int) - 48 == n);
        assert(digits_value(decimal(n)) == n);
    }
}

/// The names of the held modifiers name exactly those modifiers.
proof fn lemma_names_name(m: Modifiers)
    ensures
        named_modifiers(modifier_names(m)) == m,
{
    lemma_names_distinct();
    let ns = modifier_names(m);
    assert forall|x: Seq<char>| #[trigger] ns.contains(x) <==> ((m.alt && x == alt_name()) || (m.ctrl && x == ctrl_name())
        || (m.shift && x == shift_name()) || (m.mac_cmd && x == mac_cmd_name()) || (m.command && x == command_name())) by {
        let na = if m.alt { seq![alt_name()] } else { Seq::empty() };
        let nb = if m.ctrl { seq![ctrl_name()] } else { Seq::empty() };
        let nc = if m.shift { seq![shift_name()] } else { Seq::empty() };
        let nd = if m.mac_cmd { seq![mac_cmd_name()] } else { Seq::empty() };
        let nf = if m.command { seq![command_name()] } else { Seq::empty() };
        vstd::seq_lib::lemma_seq_concat_contains_all_elements(na + nb + nc + nd, nf, x);
        vstd::seq_lib::lemma_seq_concat_contains_all_elements(na + nb + nc, nd, x);
        vstd::seq_lib::lemma_seq_concat_contains_all_elements(na + nb, nc, x);
        vstd::seq_lib::lemma_seq_concat_contains_all_elements(na, nb, x);
        if na.contains(x) || nb.contains(x) || nc.contains(x) || nd.contains(x) || nf.contains(x) {
        }
        if m.alt && x == alt_name() {
            assert(na[0] == x);
        }
        if m.ctrl && x == ctrl_name() {
            assert(nb[0] == x);
        }
        if m.shift && x == shift_name() {
            assert(nc[0] == x);
        }
        if m.mac_cmd && x == mac_cmd_name() {
            assert(nd[0] == x);
        }
        if m.command && x == command_name() {
            assert(nf[0] == x);
        }
    }
    assert(ns.contains(alt_name()) == m.alt);
    assert(ns.contains(ctrl_name()) == m.ctrl);
    assert(ns.contains(shift_name()) == m.shift);
    assert(ns.contains(mac_cmd_name()) == m.mac_cmd);
    assert(ns.contains(command_name()) == m.command);
}

/// Reading the text of a keybind with a keyboard shortcut gives the keybind
/// back.
pub proof fn law_shortcut_text_reads_back(s: Shortcut)
    requires
        s.keyboard is Some,
    ensures
        parsed_shortcut(shortcut_text(s)) == Some(s),
{
    let k = s.keyboard->0;
    let dec = decimal(k.key as nat);
    lemma_decimal_reads_back(k.key as nat);
    lemma_split_prefix(k.modifiers);
    assert(!dec.contains('+')) by {
        if dec.contains('+') {
            let i = choose|i: int| 0 <= i < dec.len() && dec[i] == '+';
            assert(is_digit(dec[i]));
        }
    }
    lemma_split_plain_suffix(modifier_prefix(k.modifiers), dec, '+');
    let pieces = split_on(shortcut_text(s), '+');
    let names = modifier_names(k.modifiers);
    assert(Seq::<char>::empty() + dec =~= dec);
    assert(pieces =~= names.push(dec));
    assert(pieces.drop_last() =~= names);
    lemma_names_name(k.modifiers);
}

} // verus!
