//! The key-token table: the closed vocabulary of key names shared by the
//! accelerator parser and the key-combo synthesizer, together with the
//! ASCII lowercasing that makes every lookup case-insensitive.
use vstd::prelude::*;

verus! {

/// One of the four modifier keys an accelerator may name.
#[derive(Clone, Copy, Debug, PartialEq, Eq, Structural)]
pub enum Modifier {
    Control,
    Shift,
    Alt,
    Super,
}

/// A key of the closed vocabulary: latin letters (stored as their lowercase
/// ASCII byte), digits (their ASCII byte), function keys (1 through 12), and
/// the fixed set of named keys.
#[derive(Clone, Copy, Debug, PartialEq, Eq, Structural)]
pub enum KeyCode {
    Letter(u8),
    Digit(u8),
    Function(u8),
    Enter,
    Escape,
    Space,
    Tab,
    Backspace,
    Delete,
    Insert,
    Home,
    End,
    PageUp,
    PageDown,
    ArrowUp,
    ArrowDown,
    ArrowLeft,
    ArrowRight,
}

impl KeyCode {
    /// The ranges a well-formed key code keeps its payload in.
    pub open spec fn wf(self) -> bool {
        match self {
            KeyCode::Letter(b) => ('a' as u8) <= b <= ('z' as u8),
            KeyCode::Digit(b) => ('0' as u8) <= b <= ('9' as u8),
            KeyCode::Function(n) => 1 <= n <= 12,
            _ => true,
        }
    }
}

/// ASCII lowercasing of one byte; bytes outside 'A'..'Z' pass unchanged.
pub open spec fn lower_byte(b: u8) -> u8 {
    if ('A' as u8) <= b && b <= ('Z' as u8) {
        (b + 32) as u8
    } else {
        b
    }
}

/// ASCII lowercasing of a whole token.
pub open spec fn lower_seq(s: Seq<u8>) -> Seq<u8> {
    s.map_values(|b: u8| lower_byte(b))
}

/// Lowercase a token so that every table lookup is case-insensitive.
pub fn to_lower(t: &[u8]) -> (r: Vec<u8>)
    ensures
        r@ == lower_seq(t@),
{
    let mut r: Vec<u8> = Vec::new();
    let mut i: usize = 0;
    while i < t.len()
        invariant
            i <= t.len(),
            r@ == lower_seq(t@.take(i as int)),
        decreases t.len() - i,
    {
        let b = t[i];
        if ('A' as u8) <= b && b <= ('Z' as u8) {
            r.push(b + 32);
        } else {
            r.push(b);
        }
        proof {
            assert(t@.take(i + 1) =~= t@.take(i as int).push(t@[i as int]));
            assert(lower_seq(t@.take(i + 1)) =~= lower_seq(t@.take(i as int)).push(
                lower_byte(t@[i as int]),
            ));
        }
        i = i + 1;
    }
    proof {
        assert(t@.take(t@.len() as int) =~= t@);
    }
    r
}

/// Which modifier a (lowercased) token names, if any.
pub open spec fn modifier_of(s: Seq<u8>) -> Option<Modifier> {
    if s == seq![('c' as u8), ('t' as u8), ('r' as u8), ('l' as u8)] || s == seq![
        ('c' as u8),
        ('o' as u8),
        ('n' as u8),
        ('t' as u8),
        ('r' as u8),
        ('o' as u8),
        ('l' as u8),
    ] {
        Some(Modifier::Control)
    } else if s == seq![('s' as u8), ('h' as u8), ('i' as u8), ('f' as u8), ('t' as u8)] {
        Some(Modifier::Shift)
    } else if s == seq![('a' as u8), ('l' as u8), ('t' as u8)] {
        Some(Modifier::Alt)
    } else if s == seq![('m' as u8), ('e' as u8), ('t' as u8), ('a' as u8)] || s == seq![
        ('c' as u8),
        ('m' as u8),
        ('d' as u8),
    ] || s == seq![
        ('c' as u8),
        ('o' as u8),
        ('m' as u8),
        ('m' as u8),
        ('a' as u8),
        ('n' as u8),
        ('d' as u8),
    ] {
        Some(Modifier::Super)
    } else {
        None
    }
}

/// Whether two byte slices hold the same bytes.
pub fn bytes_eq(a: &[u8], b: &[u8]) -> (r: bool)
    ensures
        r == (a@ == b@),
{
    if a.len() != b.len() {
        proof {
            assert(a@ != b@);
        }
        return false;
    }
    let mut i: usize = 0;
    while i < a.len()
        invariant
            i <= a.len(),
            a@.len() == b@.len(),
            forall|j: int| 0 <= j < i ==> a@[j] == b@[j],
        decreases a.len() - i,
    {
        if a[i] != b[i] {
            proof {
                assert(a@ != b@);
            }
            return false;
        }
        i = i + 1;
    }
    proof {
        assert(a@ =~= b@);
    }
    true
}

/// Which modifier a lowercased token names, if any; tokens outside the
/// modifier vocabulary resolve to `None`.
pub fn resolve_modifier(t: &[u8]) -> (r: Option<Modifier>)
    ensures
        r == modifier_of(t@),
{
    let ctrl: Vec<u8> = vec![('c' as u8), ('t' as u8), ('r' as u8), ('l' as u8)];
    let control: Vec<u8> = vec![
        ('c' as u8),
        ('o' as u8),
        ('n' as u8),
        ('t' as u8),
        ('r' as u8),
        ('o' as u8),
        ('l' as u8),
    ];
    let shift: Vec<u8> = vec![('s' as u8), ('h' as u8), ('i' as u8), ('f' as u8), ('t' as u8)];
    let alt: Vec<u8> = vec![('a' as u8), ('l' as u8), ('t' as u8)];
    let meta: Vec<u8> = vec![('m' as u8), ('e' as u8), ('t' as u8), ('a' as u8)];
    let cmd: Vec<u8> = vec![('c' as u8), ('m' as u8), ('d' as u8)];
    let command: Vec<u8> = vec![
        ('c' as u8),
        ('o' as u8),
        ('m' as u8),
        ('m' as u8),
        ('a' as u8),
        ('n' as u8),
        ('d' as u8),
    ];
    if bytes_eq(t, ctrl.as_slice()) || bytes_eq(t, control.as_slice()) {
        Some(Modifier::Control)
    } else if bytes_eq(t, shift.as_slice()) {
        Some(Modifier::Shift)
    } else if bytes_eq(t, alt.as_slice()) {
        Some(Modifier::Alt)
    } else if bytes_eq(t, meta.as_slice()) || bytes_eq(t, cmd.as_slice()) || bytes_eq(
        t,
        command.as_slice(),
    ) {
        Some(Modifier::Super)
    } else {
        None
    }
}

/// The named keys of the vocabulary beyond letters, digits and function
/// keys, keyed by their (lowercased) token.
pub open spec fn named_key_of(s: Seq<u8>) -> Option<KeyCode> {
    if s == seq![('e' as u8), ('n' as u8), ('t' as u8), ('e' as u8), ('r' as u8)] {
        Some(KeyCode::Enter)
    } else if s == seq![
        ('e' as u8),
        ('s' as u8),
        ('c' as u8),
        ('a' as u8),
        ('p' as u8),
        ('e' as u8),
    ] || s == seq![('e' as u8), ('s' as u8), ('c' as u8)] {
        Some(KeyCode::Escape)
    } else if s == seq![('s' as u8), ('p' as u8), ('a' as u8), ('c' as u8), ('e' as u8)] {
        Some(KeyCode::Space)
    } else if s == seq![('t' as u8), ('a' as u8), ('b' as u8)] {
        Some(KeyCode::Tab)
    } else if s == seq![
        ('b' as u8),
        ('a' as u8),
        ('c' as u8),
        ('k' as u8),
        ('s' as u8),
        ('p' as u8),
        ('a' as u8),
        ('c' as u8),
        ('e' as u8),
    ] {
        Some(KeyCode::Backspace)
    } else if s == seq![('d' as u8), ('e' as u8), ('l' as u8), ('e' as u8), ('t' as u8), ('e' as u8)] {
        Some(KeyCode::Delete)
    } else if s == seq![('i' as u8), ('n' as u8), ('s' as u8), ('e' as u8), ('r' as u8), ('t' as u8)] {
        Some(KeyCode::Insert)
    } else if s == seq![('h' as u8), ('o' as u8), ('m' as u8), ('e' as u8)] {
        Some(KeyCode::Home)
    } else if s == seq![('e' as u8), ('n' as u8), ('d' as u8)] {
        Some(KeyCode::End)
    } else if s == seq![('p' as u8), ('a' as u8), ('g' as u8), ('e' as u8), ('u' as u8), ('p' as u8)] {
        Some(KeyCode::PageUp)
    } else if s == seq![
        ('p' as u8),
        ('a' as u8),
        ('g' as u8),
        ('e' as u8),
        ('d' as u8),
        ('o' as u8),
        ('w' as u8),
        ('n' as u8),
    ] {
        Some(KeyCode::PageDown)
    } else if s == seq![('u' as u8), ('p' as u8)] || s == seq![
        ('a' as u8),
        ('r' as u8),
        ('r' as u8),
        ('o' as u8),
        ('w' as u8),
        ('u' as u8),
        ('p' as u8),
    ] {
        Some(KeyCode::ArrowUp)
    } else if s == seq![('d' as u8), ('o' as u8), ('w' as u8), ('n' as u8)] || s == seq![
        ('a' as u8),
        ('r' as u8),
        ('r' as u8),
        ('o' as u8),
        ('w' as u8),
        ('d' as u8),
        ('o' as u8),
        ('w' as u8),
        ('n' as u8),
    ] {
        Some(KeyCode::ArrowDown)
    } else if s == seq![('l' as u8), ('e' as u8), ('f' as u8), ('t' as u8)] || s == seq![
        ('a' as u8),
        ('r' as u8),
        ('r' as u8),
        ('o' as u8),
        ('w' as u8),
        ('l' as u8),
        ('e' as u8),
        ('f' as u8),
        ('t' as u8),
    ] {
        Some(KeyCode::ArrowLeft)
    } else if s == seq![('r' as u8), ('i' as u8), ('g' as u8), ('h' as u8), ('t' as u8)] || s == seq![
        ('a' as u8),
        ('r' as u8),
        ('r' as u8),
        ('o' as u8),
        ('w' as u8),
        ('r' as u8),
        ('i' as u8),
        ('g' as u8),
        ('h' as u8),
        ('t' as u8),
    ] {
        Some(KeyCode::ArrowRight)
    } else {
        None
    }
}

/// The full key-token table: which key code a (lowercased) token resolves
/// to, or `None` when the token lies outside the closed vocabulary.
pub open spec fn key_code_of(s: Seq<u8>) -> Option<KeyCode> {
    if s.len() == 1 && ('a' as u8) <= s[0] <= ('z' as u8) {
        Some(KeyCode::Letter(s[0]))
    } else if s.len() == 1 && ('0' as u8) <= s[0] <= ('9' as u8) {
        Some(KeyCode::Digit(s[0]))
    } else if s.len() == 2 && s[0] == ('f' as u8) && ('1' as u8) <= s[1] <= ('9' as u8) {
        Some(KeyCode::Function((s[1] - ('0' as u8)) as u8))
    } else if s.len() == 3 && s[0] == ('f' as u8) && s[1] == ('1' as u8) && ('0' as u8) <= s[2]
        <= ('2' as u8) {
        Some(KeyCode::Function((10 + s[2] - ('0' as u8)) as u8))
    } else {
        named_key_of(s)
    }
}

/// Every code the table hands out stays inside its well-formed ranges.
pub proof fn lemma_key_code_wf(s: Seq<u8>)
    ensures
        key_code_of(s) matches Some(c) ==> c.wf(),
{
}

/// Resolve a lowercased token against the named-key part of the table.
fn resolve_named_key(t: &[u8]) -> (r: Option<KeyCode>)
    ensures
        r == named_key_of(t@),
{
    let enter: Vec<u8> = vec![('e' as u8), ('n' as u8), ('t' as u8), ('e' as u8), ('r' as u8)];
    let escape: Vec<u8> = vec![
        ('e' as u8),
        ('s' as u8),
        ('c' as u8),
        ('a' as u8),
        ('p' as u8),
        ('e' as u8),
    ];
    let esc: Vec<u8> = vec![('e' as u8), ('s' as u8), ('c' as u8)];
    let space: Vec<u8> = vec![('s' as u8), ('p' as u8), ('a' as u8), ('c' as u8), ('e' as u8)];
    let tab: Vec<u8> = vec![('t' as u8), ('a' as u8), ('b' as u8)];
    let backspace: Vec<u8> = vec![
        ('b' as u8),
        ('a' as u8),
        ('c' as u8),
        ('k' as u8),
        ('s' as u8),
        ('p' as u8),
        ('a' as u8),
        ('c' as u8),
        ('e' as u8),
    ];
    let delete: Vec<u8> = vec![
        ('d' as u8),
        ('e' as u8),
        ('l' as u8),
        ('e' as u8),
        ('t' as u8),
        ('e' as u8),
    ];
    let insert: Vec<u8> = vec![
        ('i' as u8),
        ('n' as u8),
        ('s' as u8),
        ('e' as u8),
        ('r' as u8),
        ('t' as u8),
    ];
    let home: Vec<u8> = vec![('h' as u8), ('o' as u8), ('m' as u8), ('e' as u8)];
    let end: Vec<u8> = vec![('e' as u8), ('n' as u8), ('d' as u8)];
    let pageup: Vec<u8> = vec![
        ('p' as u8),
        ('a' as u8),
        ('g' as u8),
        ('e' as u8),
        ('u' as u8),
        ('p' as u8),
    ];
    let pagedown: Vec<u8> = vec![
        ('p' as u8),
        ('a' as u8),
        ('g' as u8),
        ('e' as u8),
        ('d' as u8),
        ('o' as u8),
        ('w' as u8),
        ('n' as u8),
    ];
    let up: Vec<u8> = vec![('u' as u8), ('p' as u8)];
    let arrowup: Vec<u8> = vec![
        ('a' as u8),
        ('r' as u8),
        ('r' as u8),
        ('o' as u8),
        ('w' as u8),
        ('u' as u8),
        ('p' as u8),
    ];
    let down: Vec<u8> = vec![('d' as u8), ('o' as u8), ('w' as u8), ('n' as u8)];
    let arrowdown: Vec<u8> = vec![
        ('a' as u8),
        ('r' as u8),
        ('r' as u8),
        ('o' as u8),
        ('w' as u8),
        ('d' as u8),
        ('o' as u8),
        ('w' as u8),
        ('n' as u8),
    ];
    let left: Vec<u8> = vec![('l' as u8), ('e' as u8), ('f' as u8), ('t' as u8)];
    let arrowleft: Vec<u8> = vec![
        ('a' as u8),
        ('r' as u8),
        ('r' as u8),
        ('o' as u8),
        ('w' as u8),
        ('l' as u8),
        ('e' as u8),
        ('f' as u8),
        ('t' as u8),
    ];
    let right: Vec<u8> = vec![('r' as u8), ('i' as u8), ('g' as u8), ('h' as u8), ('t' as u8)];
    let arrowright: Vec<u8> = vec![
        ('a' as u8),
        ('r' as u8),
        ('r' as u8),
        ('o' as u8),
        ('w' as u8),
        ('r' as u8),
        ('i' as u8),
        ('g' as u8),
        ('h' as u8),
        ('t' as u8),
    ];
    if bytes_eq(t, enter.as_slice()) {
        Some(KeyCode::Enter)
    } else if bytes_eq(t, escape.as_slice()) || bytes_eq(t, esc.as_slice()) {
        Some(KeyCode::Escape)
    } else if bytes_eq(t, space.as_slice()) {
        Some(KeyCode::Space)
    } else if bytes_eq(t, tab.as_slice()) {
        Some(KeyCode::Tab)
    } else if bytes_eq(t, backspace.as_slice()) {
        Some(KeyCode::Backspace)
    } else if bytes_eq(t, delete.as_slice()) {
        Some(KeyCode::Delete)
    } else if bytes_eq(t, insert.as_slice()) {
        Some(KeyCode::Insert)
    } else if bytes_eq(t, home.as_slice()) {
        Some(KeyCode::Home)
    } else if bytes_eq(t, end.as_slice()) {
        Some(KeyCode::End)
    } else if bytes_eq(t, pageup.as_slice()) {
        Some(KeyCode::PageUp)
    } else if bytes_eq(t, pagedown.as_slice()) {
        Some(KeyCode::PageDown)
    } else if bytes_eq(t, up.as_slice()) || bytes_eq(t, arrowup.as_slice()) {
        Some(KeyCode::ArrowUp)
    } else if bytes_eq(t, down.as_slice()) || bytes_eq(t, arrowdown.as_slice()) {
        Some(KeyCode::ArrowDown)
    } else if bytes_eq(t, left.as_slice()) || bytes_eq(t, arrowleft.as_slice()) {
        Some(KeyCode::ArrowLeft)
    } else if bytes_eq(t, right.as_slice()) || bytes_eq(t, arrowright.as_slice()) {
        Some(KeyCode::ArrowRight)
    } else {
        None
    }
}

/// Resolve a lowercased token against the full key-token table.
pub fn resolve_key(t: &[u8]) -> (r: Option<KeyCode>)
    ensures
        r == key_code_of(t@),
{
    if t.len() == 1 && ('a' as u8) <= t[0] && t[0] <= ('z' as u8) {
        Some(KeyCode::Letter(t[0]))
    } else if t.len() == 1 && ('0' as u8) <= t[0] && t[0] <= ('9' as u8) {
        Some(KeyCode::Digit(t[0]))
    } else if t.len() == 2 && t[0] == ('f' as u8) && ('1' as u8) <= t[1] && t[1] <= ('9' as u8) {
        Some(KeyCode::Function(t[1] - ('0' as u8)))
    } else if t.len() == 3 && t[0] == ('f' as u8) && t[1] == ('1' as u8) && ('0' as u8) <= t[2]
        && t[2] <= ('2' as u8) {
        Some(KeyCode::Function(10 + t[2] - ('0' as u8)))
    } else {
        resolve_named_key(t)
    }
}

} // verus!
