//! The accelerator parser: a human-authored string such as `ctrl+shift+a`
//! becomes a normalized (modifier-set, key-code) pair, or an exact error.
use vstd::prelude::*;
use vstd::multiset::Multiset;
use crate::keys::{
    Modifier, KeyCode, lower_seq, modifier_of, key_code_of, to_lower, resolve_modifier,
    resolve_key,
};

verus! {

/// The set of modifiers named by an accelerator; order-independent,
/// duplicates collapse.
#[derive(Clone, Copy, Debug, PartialEq, Eq, Structural)]
pub struct ModifierSet {
    pub control: bool,
    pub shift: bool,
    pub alt: bool,
    pub sup: bool,
}

impl ModifierSet {
    /// Whether the set holds the given modifier.
    pub open spec fn has(self, m: Modifier) -> bool {
        match m {
            Modifier::Control => self.control,
            Modifier::Shift => self.shift,
            Modifier::Alt => self.alt,
            Modifier::Super => self.sup,
        }
    }

    /// The set with the given modifier added.
    pub open spec fn spec_with(self, m: Modifier) -> ModifierSet {
        match m {
            Modifier::Control => ModifierSet { control: true, ..self },
            Modifier::Shift => ModifierSet { shift: true, ..self },
            Modifier::Alt => ModifierSet { alt: true, ..self },
            Modifier::Super => ModifierSet { sup: true, ..self },
        }
    }

    /// The empty modifier set.
    pub fn empty() -> (r: ModifierSet)
        ensures
            r == (ModifierSet { control: false, shift: false, alt: false, sup: false }),
    {
        ModifierSet { control: false, shift: false, alt: false, sup: false }
    }

    /// Add one modifier; adding one already present changes nothing.
    pub fn with(self, m: Modifier) -> (r: ModifierSet)
        ensures
            r == self.spec_with(m),
    {
        match m {
            Modifier::Control => ModifierSet { control: true, ..self },
            Modifier::Shift => ModifierSet { shift: true, ..self },
            Modifier::Alt => ModifierSet { alt: true, ..self },
            Modifier::Super => ModifierSet { sup: true, ..self },
        }
    }

    /// Whether the set holds the given modifier.
    pub fn contains(self, m: Modifier) -> (r: bool)
        ensures
            r == self.has(m),
    {
        match m {
            Modifier::Control => self.control,
            Modifier::Shift => self.shift,
            Modifier::Alt => self.alt,
            Modifier::Super => self.sup,
        }
    }
}

/// A normalized hotkey: the unit the OS layer arms and disarms. Two encoded
/// hotkeys are equal exactly when both components are.
#[derive(Clone, Copy, Debug, PartialEq, Eq, Structural)]
pub struct EncodedHotkey {
    pub mods: ModifierSet,
    pub code: KeyCode,
}

/// Why an accelerator string was rejected. `UnsupportedKey` carries the
/// offending action-key token, lowercased.
#[derive(Debug, PartialEq, Eq)]
pub enum ParseError {
    NoKey,
    MultipleKeys,
    UnsupportedKey(Vec<u8>),
}

/// Index of the first `+` in the string, or -1 when there is none.
pub open spec fn first_plus(s: Seq<u8>) -> int
    decreases s.len(),
{
    if s.len() == 0 {
        -1
    } else if s[0] == ('+' as u8) {
        0
    } else {
        let r = first_plus(s.drop_first());
        if r < 0 {
            -1
        } else {
            r + 1
        }
    }
}

/// What `first_plus` finds really is the first `+`.
proof fn lemma_first_plus(s: Seq<u8>)
    ensures
        first_plus(s) == -1 ==> forall|j: int| 0 <= j < s.len() ==> s[j] != ('+' as u8),
        first_plus(s) != -1 ==> 0 <= first_plus(s) < s.len() && s[first_plus(s)] == ('+' as u8)
            && forall|j: int| 0 <= j < first_plus(s) ==> s[j] != ('+' as u8),
    decreases s.len(),
{
    if s.len() > 0 && s[0] != ('+' as u8) {
        lemma_first_plus(s.drop_first());
        let r = first_plus(s.drop_first());
        if r == -1 {
            assert forall|j: int| 0 <= j < s.len() implies s[j] != ('+' as u8) by {
                if j > 0 {
                    assert(s.drop_first()[j - 1] == s[j]);
                }
            }
        } else {
            assert(s[r + 1] == s.drop_first()[r]);
            assert forall|j: int| 0 <= j < r + 1 implies s[j] != ('+' as u8) by {
                if j > 0 {
                    assert(s.drop_first()[j - 1] == s[j]);
                }
            }
        }
    }
}

/// The parts of the string between `+` separators, empty parts kept, as
/// `split('+')` hands them out.
pub open spec fn split_parts(s: Seq<u8>) -> Seq<Seq<u8>>
    decreases s.len(),
{
    let i = first_plus(s);
    if i < 0 || i >= s.len() {
        seq![s]
    } else {
        seq![s.take(i)] + split_parts(s.skip(i + 1))
    }
}

/// Which modifier a raw (not yet lowercased) part names, if any.
pub open spec fn part_mod(p: Seq<u8>) -> Option<Modifier> {
    modifier_of(lower_seq(p))
}

/// Whether a part names a modifier.
pub open spec fn is_mod_part(p: Seq<u8>) -> bool {
    part_mod(p) is Some
}

/// The candidate action-key parts: every part that names no modifier, in
/// the order encountered.
pub open spec fn keys_of(parts: Seq<Seq<u8>>) -> Seq<Seq<u8>>
    decreases parts.len(),
{
    if parts.len() == 0 {
        Seq::empty()
    } else if is_mod_part(parts.last()) {
        keys_of(parts.drop_last())
    } else {
        keys_of(parts.drop_last()).push(parts.last())
    }
}

/// Whether some part names the given modifier.
pub open spec fn has_mod(parts: Seq<Seq<u8>>, m: Modifier) -> bool {
    exists|i: int| 0 <= i < parts.len() && part_mod(parts[i]) == Some(m)
}

/// The modifier set an accelerator's parts denote: a modifier is in exactly
/// when some part names it, whatever the order and however often.
pub open spec fn mods_of(parts: Seq<Seq<u8>>) -> ModifierSet {
    ModifierSet {
        control: has_mod(parts, Modifier::Control),
        shift: has_mod(parts, Modifier::Shift),
        alt: has_mod(parts, Modifier::Alt),
        sup: has_mod(parts, Modifier::Super),
    }
}

/// The candidate action-key parts of an accelerator string.
pub open spec fn accel_keys(s: Seq<u8>) -> Seq<Seq<u8>> {
    keys_of(split_parts(s))
}

/// The single action-key token, lowercased; meaningful when there is
/// exactly one candidate.
pub open spec fn accel_key(s: Seq<u8>) -> Seq<u8> {
    lower_seq(accel_keys(s)[0])
}

/// Whether the accelerator parses: exactly one action-key part, and that
/// part is in the key-token table.
pub open spec fn accel_ok(s: Seq<u8>) -> bool {
    accel_keys(s).len() == 1 && key_code_of(accel_key(s)) is Some
}

/// The hotkey a well-formed accelerator encodes to.
pub open spec fn accel_hotkey(s: Seq<u8>) -> EncodedHotkey
    recommends
        accel_ok(s),
{
    match key_code_of(accel_key(s)) {
        Some(c) => EncodedHotkey { mods: mods_of(split_parts(s)), code: c },
        None => arbitrary(),
    }
}

/// Which error a rejected accelerator is owed: no candidate key, more than
/// one, or a single candidate outside the table (reported lowercased).
pub open spec fn parse_error_matches(s: Seq<u8>, e: ParseError) -> bool {
    match e {
        ParseError::NoKey => accel_keys(s).len() == 0,
        ParseError::MultipleKeys => accel_keys(s).len() >= 2,
        ParseError::UnsupportedKey(t) => accel_keys(s).len() == 1 && t@ == accel_key(s)
            && key_code_of(t@) is None,
    }
}

/// How often a part occurs among the candidate keys: never when it names a
/// modifier, else exactly as often as it occurs among the parts.
proof fn lemma_keys_of_count(parts: Seq<Seq<u8>>, p: Seq<u8>)
    ensures
        keys_of(parts).to_multiset().count(p) == if is_mod_part(p) {
            0nat
        } else {
            parts.to_multiset().count(p)
        },
    decreases parts.len(),
{
    broadcast use vstd::seq_lib::group_to_multiset_ensures;
    broadcast use vstd::multiset::group_multiset_axioms;

    if parts.len() == 0 {
        assert(parts.to_multiset() =~= Multiset::empty());
        assert(keys_of(parts).to_multiset() =~= Multiset::empty());
    } else {
        let dl = parts.drop_last();
        let x = parts.last();
        lemma_keys_of_count(dl, p);
        assert(parts =~= dl.push(x));
        assert(parts.to_multiset() =~= dl.to_multiset().insert(x));
        if !is_mod_part(x) {
            assert(keys_of(parts) == keys_of(dl).push(x));
            assert(keys_of(parts).to_multiset() =~= keys_of(dl).to_multiset().insert(x));
        }
    }
}

/// Whether a modifier is named depends only on which parts occur, not on
/// their order or multiplicity.
proof fn lemma_has_mod_multiset(parts1: Seq<Seq<u8>>, parts2: Seq<Seq<u8>>, m: Modifier)
    requires
        parts1.to_multiset() == parts2.to_multiset(),
    ensures
        has_mod(parts1, m) <==> has_mod(parts2, m),
{
    broadcast use vstd::seq_lib::group_to_multiset_ensures;

    if has_mod(parts1, m) {
        let i = choose|i: int| 0 <= i < parts1.len() && part_mod(parts1[i]) == Some(m);
        assert(parts1.contains(parts1[i]));
        assert(parts2.to_multiset().count(parts1[i]) > 0);
        assert(parts2.contains(parts1[i]));
        let j = choose|j: int| 0 <= j < parts2.len() && parts2[j] == parts1[i];
        assert(part_mod(parts2[j]) == Some(m));
    }
    if has_mod(parts2, m) {
        let i = choose|i: int| 0 <= i < parts2.len() && part_mod(parts2[i]) == Some(m);
        assert(parts2.contains(parts2[i]));
        assert(parts1.to_multiset().count(parts2[i]) > 0);
        assert(parts1.contains(parts2[i]));
        let j = choose|j: int| 0 <= j < parts1.len() && parts1[j] == parts2[i];
        assert(part_mod(parts1[j]) == Some(m));
    }
}

/// Token order never matters: two accelerators whose `+`-separated parts
/// are the same up to reordering (and multiplicity of the same part) parse
/// alike — same success or failure, same modifier set, same key.
pub proof fn lemma_parse_order_independent(s1: Seq<u8>, s2: Seq<u8>)
    requires
        split_parts(s1).to_multiset() == split_parts(s2).to_multiset(),
    ensures
        accel_keys(s1).len() == accel_keys(s2).len(),
        mods_of(split_parts(s1)) == mods_of(split_parts(s2)),
        accel_keys(s1).len() == 1 ==> accel_key(s1) == accel_key(s2),
        accel_ok(s1) <==> accel_ok(s2),
        accel_ok(s1) ==> accel_hotkey(s1) == accel_hotkey(s2),
{
    broadcast use vstd::seq_lib::group_to_multiset_ensures;

    let p1 = split_parts(s1);
    let p2 = split_parts(s2);
    let k1 = accel_keys(s1);
    let k2 = accel_keys(s2);
    assert forall|p: Seq<u8>| k1.to_multiset().count(p) == k2.to_multiset().count(p) by {
        lemma_keys_of_count(p1, p);
        lemma_keys_of_count(p2, p);
    }
    assert(k1.to_multiset() =~= k2.to_multiset());
    k1.to_multiset_ensures();
    k2.to_multiset_ensures();
    assert(k1.len() == k2.len());
    lemma_has_mod_multiset(p1, p2, Modifier::Control);
    lemma_has_mod_multiset(p1, p2, Modifier::Shift);
    lemma_has_mod_multiset(p1, p2, Modifier::Alt);
    lemma_has_mod_multiset(p1, p2, Modifier::Super);
    if k1.len() == 1 {
        assert(k1.contains(k1[0]));
        assert(k2.to_multiset().count(k1[0]) > 0);
        assert(k2.contains(k1[0]));
        let j = choose|j: int| 0 <= j < k2.len() && k2[j] == k1[0];
        assert(k2[0] == k1[0]);
    }
}

/// Every part that names no modifier is dropped from the candidate keys
/// only when it names a modifier, so all-modifier parts leave none.
proof fn lemma_keys_of_all_mods(parts: Seq<Seq<u8>>)
    requires
        forall|i: int| 0 <= i < parts.len() ==> is_mod_part(#[trigger] parts[i]),
    ensures
        keys_of(parts).len() == 0,
    decreases parts.len(),
{
    if parts.len() > 0 {
        assert(parts[parts.len() - 1] == parts.last());
        lemma_keys_of_all_mods(parts.drop_last());
    }
}

/// An accelerator made of modifier names and exactly one token of the
/// key-token table parses, whatever order the parts stand in: the key is
/// that token and the modifier set holds exactly the named modifiers.
pub proof fn lemma_parse_modifiers_one_key(s: Seq<u8>, j: int)
    requires
        0 <= j < split_parts(s).len(),
        !is_mod_part(split_parts(s)[j]),
        key_code_of(lower_seq(split_parts(s)[j])) is Some,
        forall|i: int| 0 <= i < split_parts(s).len() && i != j ==> is_mod_part(
            #[trigger] split_parts(s)[i],
        ),
    ensures
        accel_ok(s),
        accel_key(s) == lower_seq(split_parts(s)[j]),
        accel_hotkey(s).mods == mods_of(split_parts(s)),
        Some(accel_hotkey(s).code) == key_code_of(lower_seq(split_parts(s)[j])),
{
    lemma_keys_of_one_key(split_parts(s), j);
}

/// With exactly one non-modifier part, the candidate keys are exactly that
/// part.
proof fn lemma_keys_of_one_key(parts: Seq<Seq<u8>>, j: int)
    requires
        0 <= j < parts.len(),
        !is_mod_part(parts[j]),
        forall|i: int| 0 <= i < parts.len() && i != j ==> is_mod_part(#[trigger] parts[i]),
    ensures
        keys_of(parts) =~= seq![parts[j]],
    decreases parts.len(),
{
    let dl = parts.drop_last();
    if j == parts.len() - 1 {
        lemma_keys_of_all_mods(dl);
        assert(keys_of(dl) =~= Seq::empty());
        assert(keys_of(parts) =~= keys_of(dl).push(parts.last()));
    } else {
        assert(is_mod_part(parts[parts.len() - 1]));
        lemma_keys_of_one_key(dl, j);
        assert(dl[j] == parts[j]);
    }
}

/// Split a byte string on `+`, keeping empty parts.
pub fn split_plus(s: &[u8]) -> (r: Vec<Vec<u8>>)
    ensures
        r@.len() == split_parts(s@).len(),
        forall|i: int| 0 <= i < r@.len() ==> r@[i]@ == split_parts(s@)[i],
    decreases s.len(),
{
    let mut i: usize = 0;
    while i < s.len() && s[i] != ('+' as u8)
        invariant
            i <= s.len(),
            forall|j: int| 0 <= j < i ==> s@[j] != ('+' as u8),
        decreases s.len() - i,
    {
        i = i + 1;
    }
    proof {
        lemma_first_plus(s@);
    }
    if i == s.len() {
        let mut out: Vec<Vec<u8>> = Vec::new();
        out.push(vstd::slice::slice_to_vec(s));
        proof {
            assert(first_plus(s@) == -1);
        }
        out
    } else {
        let head = vstd::slice::slice_to_vec(vstd::slice::slice_subrange(s, 0, i));
        let rest = vstd::slice::slice_subrange(s, i + 1, s.len());
        let mut tail = split_plus(rest);
        let mut out: Vec<Vec<u8>> = Vec::new();
        out.push(head);
        out.append(&mut tail);
        proof {
            assert(first_plus(s@) == i);
            assert(rest@ =~= s@.skip(i + 1));
            assert(head@ =~= s@.take(i as int));
        }
        out
    }
}

/// One part was appended: the candidate keys grow by the part exactly when
/// it names no modifier.
proof fn lemma_keys_of_push(parts: Seq<Seq<u8>>, p: Seq<u8>)
    ensures
        is_mod_part(p) ==> keys_of(parts.push(p)) == keys_of(parts),
        !is_mod_part(p) ==> keys_of(parts.push(p)) == keys_of(parts).push(p),
{
    assert(parts.push(p).drop_last() =~= parts);
    assert(parts.push(p).last() == p);
}

/// One part was appended: a modifier is named afterwards exactly when it
/// was named before or the new part names it.
proof fn lemma_has_mod_push(parts: Seq<Seq<u8>>, p: Seq<u8>, m: Modifier)
    ensures
        has_mod(parts.push(p), m) <==> (has_mod(parts, m) || part_mod(p) == Some(m)),
{
    if has_mod(parts, m) {
        let j = choose|j: int| 0 <= j < parts.len() && part_mod(parts[j]) == Some(m);
        assert(parts.push(p)[j] == parts[j]);
    }
    if part_mod(p) == Some(m) {
        assert(parts.push(p)[parts.len() as int] == p);
    }
    if has_mod(parts.push(p), m) {
        let j = choose|j: int|
            0 <= j < parts.push(p).len() && part_mod(parts.push(p)[j]) == Some(m);
        if j < parts.len() {
            assert(parts[j] == parts.push(p)[j]);
        }
    }
}

/// A prefix never holds more candidate keys than the whole.
proof fn lemma_keys_of_take_le(parts: Seq<Seq<u8>>, i: int)
    requires
        0 <= i <= parts.len(),
    ensures
        keys_of(parts.take(i)).len() <= keys_of(parts).len(),
    decreases parts.len() - i,
{
    if i == parts.len() {
        assert(parts.take(i) =~= parts);
    } else {
        assert(parts.take(i + 1) =~= parts.take(i).push(parts[i]));
        lemma_keys_of_push(parts.take(i), parts[i]);
        lemma_keys_of_take_le(parts, i + 1);
    }
}

/// Parse an accelerator string into the hotkey it encodes. Exactly the
/// well-formed accelerators succeed; each rejection carries the one error
/// it is owed, and the string decides the outcome deterministically.
pub fn parse_accelerator(accelerator: &[u8]) -> (r: Result<EncodedHotkey, ParseError>)
    ensures
        r is Ok <==> accel_ok(accelerator@),
        accel_ok(accelerator@) ==> r == Ok::<EncodedHotkey, ParseError>(
            accel_hotkey(accelerator@),
        ),
        r matches Err(e) ==> parse_error_matches(accelerator@, e),
{
    let parts = split_plus(accelerator);
    let ghost pv = split_parts(accelerator@);
    let mut mods = ModifierSet::empty();
    let mut key: Option<Vec<u8>> = None;
    let mut i: usize = 0;
    while i < parts.len()
        invariant
            pv == split_parts(accelerator@),
            i <= parts.len(),
            parts@.len() == pv.len(),
            forall|j: int| 0 <= j < pv.len() ==> parts@[j]@ == pv[j],
            mods == mods_of(pv.take(i as int)),
            match key {
                None => keys_of(pv.take(i as int)).len() == 0,
                Some(v) => keys_of(pv.take(i as int)).len() == 1 && v@ == lower_seq(
                    keys_of(pv.take(i as int))[0],
                ),
            },
        decreases parts.len() - i,
    {
        let low = to_lower(parts[i].as_slice());
        proof {
            assert(pv.take(i + 1) =~= pv.take(i as int).push(pv[i as int]));
            lemma_keys_of_push(pv.take(i as int), pv[i as int]);
            lemma_has_mod_push(pv.take(i as int), pv[i as int], Modifier::Control);
            lemma_has_mod_push(pv.take(i as int), pv[i as int], Modifier::Shift);
            lemma_has_mod_push(pv.take(i as int), pv[i as int], Modifier::Alt);
            lemma_has_mod_push(pv.take(i as int), pv[i as int], Modifier::Super);
        }
        match resolve_modifier(low.as_slice()) {
            Some(m) => {
                mods = mods.with(m);
            },
            None => {
                if key.is_some() {
                    proof {
                        lemma_keys_of_take_le(pv, i + 1);
                    }
                    return Err(ParseError::MultipleKeys);
                }
                key = Some(low);
            },
        }
        i = i + 1;
    }
    proof {
        assert(pv.take(pv.len() as int) =~= pv);
    }
    match key {
        None => Err(ParseError::NoKey),
        Some(k) => {
            match resolve_key(k.as_slice()) {
                Some(code) => Ok(EncodedHotkey { mods, code }),
                None => Err(ParseError::UnsupportedKey(k)),
            }
        },
    }
}

} // verus!
