//! The hotkey registry: process-wide state mapping a logical id to its
//! accelerator, the hotkey it encodes to, and the platform identifier the
//! OS layer assigned when it armed it. The registry itself never talks to
//! the OS: `plan_register` says what to disarm and arm, the caller performs
//! the calls, and `commit_register` records the outcome. `unregister`
//! removes the entry and hands back what to disarm, if anything.
use vstd::prelude::*;
use crate::accel::{
    EncodedHotkey, ParseError, accel_ok, accel_hotkey, parse_error_matches, parse_accelerator,
};
use crate::keys::bytes_eq;

verus! {

/// One registered binding: the caller-chosen logical id, the accelerator
/// exactly as supplied, the hotkey it encodes to, and the platform
/// identifier under which the OS layer armed it.
pub struct HotkeyEntry {
    pub id: Vec<u8>,
    pub accelerator: Vec<u8>,
    pub encoded: EncodedHotkey,
    pub platform_id: u32,
}

/// The mathematical image of one entry.
pub ghost struct EntryModel {
    pub id: Seq<u8>,
    pub accelerator: Seq<u8>,
    pub encoded: EncodedHotkey,
    pub platform_id: u32,
}

impl View for HotkeyEntry {
    type V = EntryModel;

    open spec fn view(&self) -> EntryModel {
        EntryModel {
            id: self.id@,
            accelerator: self.accelerator@,
            encoded: self.encoded,
            platform_id: self.platform_id,
        }
    }
}

/// Whether some entry carries the given id.
pub open spec fn contains_id(s: Seq<EntryModel>, id: Seq<u8>) -> bool {
    exists|i: int| 0 <= i < s.len() && s[i].id == id
}

/// The entry carrying the given id; meaningful when ids are unique.
pub open spec fn entry_for(s: Seq<EntryModel>, id: Seq<u8>) -> EntryModel {
    s[choose|i: int| 0 <= i < s.len() && s[i].id == id]
}

/// The hotkey armed for the given id, if the id is registered.
pub open spec fn armed_of(s: Seq<EntryModel>, id: Seq<u8>) -> Option<EncodedHotkey> {
    if contains_id(s, id) {
        Some(entry_for(s, id).encoded)
    } else {
        None
    }
}

/// Whether some entry was armed under the given platform identifier.
pub open spec fn contains_pid(s: Seq<EntryModel>, pid: u32) -> bool {
    exists|i: int| 0 <= i < s.len() && s[i].platform_id == pid
}

/// The entries without those carrying the given id, order kept.
pub open spec fn remove_id(s: Seq<EntryModel>, id: Seq<u8>) -> Seq<EntryModel>
    decreases s.len(),
{
    if s.len() == 0 {
        Seq::empty()
    } else if s.last().id == id {
        remove_id(s.drop_last(), id)
    } else {
        remove_id(s.drop_last(), id).push(s.last())
    }
}

/// The registry's invariant: ids are unique, platform identifiers are
/// unique, and every stored accelerator still parses to the hotkey that was
/// armed for it — so re-deriving from the string can never diverge from
/// what the OS layer holds.
pub open spec fn entries_wf(s: Seq<EntryModel>) -> bool {
    &&& forall|i: int, j: int|
        0 <= i < j < s.len() ==> #[trigger] s[i].id != #[trigger] s[j].id
    &&& forall|i: int, j: int|
        0 <= i < j < s.len() ==> #[trigger] s[i].platform_id != #[trigger] s[j].platform_id
    &&& forall|i: int|
        0 <= i < s.len() ==> accel_ok(#[trigger] s[i].accelerator) && accel_hotkey(
            s[i].accelerator,
        ) == s[i].encoded
}

/// What a registration asks of the OS layer: disarm the hotkey the id held
/// before, if any, then arm the new one.
#[derive(Clone, Copy, Debug)]
pub struct RegisterPlan {
    pub disarm: Option<EncodedHotkey>,
    pub arm: EncodedHotkey,
}

/// The registry of currently registered hotkeys.
pub struct HotkeyRegistry {
    entries: Vec<HotkeyEntry>,
}

impl View for HotkeyRegistry {
    type V = Seq<EntryModel>;

    closed spec fn view(&self) -> Seq<EntryModel> {
        self.entries@.map_values(|e: HotkeyEntry| e@)
    }
}

/// Everything `remove_id` keeps was there before, under another id.
proof fn lemma_remove_id_sub(s: Seq<EntryModel>, id: Seq<u8>)
    ensures
        forall|k: int|
            0 <= k < remove_id(s, id).len() ==> (#[trigger] remove_id(s, id)[k]).id != id
                && s.contains(remove_id(s, id)[k]),
    decreases s.len(),
{
    if s.len() > 0 {
        let dl = s.drop_last();
        lemma_remove_id_sub(dl, id);
        assert(forall|j: int| 0 <= j < dl.len() ==> dl[j] == s[j]);
        assert(s[s.len() - 1] == s.last());
        assert forall|k: int|
            0 <= k < remove_id(s, id).len() implies (#[trigger] remove_id(s, id)[k]).id != id
            && s.contains(remove_id(s, id)[k]) by {
            if s.last().id != id && k == remove_id(s, id).len() - 1 {
                assert(remove_id(s, id)[k] == s.last());
            } else {
                assert(remove_id(s, id)[k] == remove_id(dl, id)[k]);
                let j = choose|j: int| 0 <= j < dl.len() && dl[j] == remove_id(dl, id)[k];
                assert(s[j] == remove_id(s, id)[k]);
            }
        }
    }
}

/// Removing an absent id changes nothing.
proof fn lemma_remove_id_absent(s: Seq<EntryModel>, id: Seq<u8>)
    requires
        !contains_id(s, id),
    ensures
        remove_id(s, id) =~= s,
    decreases s.len(),
{
    if s.len() > 0 {
        let dl = s.drop_last();
        assert(s[s.len() - 1] == s.last());
        assert(!contains_id(dl, id)) by {
            if contains_id(dl, id) {
                let i = choose|i: int| 0 <= i < dl.len() && dl[i].id == id;
                assert(s[i].id == id);
            }
        }
        lemma_remove_id_absent(dl, id);
    }
}

/// Removal keeps the invariant, and keeps every other id's entry as it was.
proof fn lemma_remove_id_wf(s: Seq<EntryModel>, id: Seq<u8>)
    requires
        entries_wf(s),
    ensures
        entries_wf(remove_id(s, id)),
    decreases s.len(),
{
    if s.len() > 0 {
        let dl = s.drop_last();
        assert(forall|j: int| 0 <= j < dl.len() ==> dl[j] == s[j]);
        lemma_remove_id_wf(dl, id);
        lemma_remove_id_sub(dl, id);
        if s.last().id != id {
            let r = remove_id(dl, id).push(s.last());
            assert(s[s.len() - 1] == s.last());
            assert forall|k1: int, k2: int|
                0 <= k1 < k2 < r.len() implies #[trigger] r[k1].id != #[trigger] r[k2].id by {
                if k2 == r.len() - 1 {
                    let j = choose|j: int| 0 <= j < dl.len() && dl[j] == remove_id(dl, id)[k1];
                    assert(r[k1] == s[j]);
                    assert(r[k2] == s[s.len() - 1]);
                }
            }
            assert forall|k1: int, k2: int|
                0 <= k1 < k2 < r.len() implies #[trigger] r[k1].platform_id
                != #[trigger] r[k2].platform_id by {
                if k2 == r.len() - 1 {
                    let j = choose|j: int| 0 <= j < dl.len() && dl[j] == remove_id(dl, id)[k1];
                    assert(r[k1] == s[j]);
                    assert(r[k2] == s[s.len() - 1]);
                }
            }
            assert forall|k: int|
                0 <= k < r.len() implies accel_ok(#[trigger] r[k].accelerator) && accel_hotkey(
                r[k].accelerator,
            ) == r[k].encoded by {
                if k == r.len() - 1 {
                    assert(r[k] == s[s.len() - 1]);
                } else {
                    let j = choose|j: int| 0 <= j < dl.len() && dl[j] == remove_id(dl, id)[k];
                    assert(r[k] == s[j]);
                }
            }
        }
    }
}

/// With unique ids, whichever entry carries the id is the entry looked up.
proof fn lemma_entry_for_unique(s: Seq<EntryModel>, id: Seq<u8>, i: int)
    requires
        forall|i1: int, j1: int| 0 <= i1 < j1 < s.len() ==> #[trigger] s[i1].id != #[trigger] s[j1].id,
        0 <= i < s.len(),
        s[i].id == id,
    ensures
        contains_id(s, id),
        entry_for(s, id) == s[i],
{
    let k = choose|k: int| 0 <= k < s.len() && s[k].id == id;
    if k != i {
        if k < i {
            assert(s[k].id != s[i].id);
        } else {
            assert(s[i].id != s[k].id);
        }
    }
}

impl HotkeyRegistry {
    /// The registry's invariant.
    pub open spec fn wf(self) -> bool {
        entries_wf(self@)
    }

    /// A fresh registry holds nothing.
    pub fn new() -> (r: HotkeyRegistry)
        ensures
            r@ =~= Seq::<EntryModel>::empty(),
            r.wf(),
    {
        let r = HotkeyRegistry { entries: Vec::new() };
        proof {
            assert(r@ =~= Seq::<EntryModel>::empty());
        }
        r
    }

    /// How many ids are registered.
    pub fn len(&self) -> (r: usize)
        ensures
            r == self@.len(),
    {
        self.entries.len()
    }

    /// The index of the entry carrying the id, if any.
    fn index_of(&self, id: &[u8]) -> (r: Option<usize>)
        ensures
            match r {
                Some(i) => i < self@.len() && self@[i as int].id == id@,
                None => !contains_id(self@, id@),
            },
    {
        let mut i: usize = 0;
        while i < self.entries.len()
            invariant
                i <= self.entries.len(),
                forall|j: int| 0 <= j < i ==> self@[j].id != id@,
            decreases self.entries.len() - i,
        {
            if bytes_eq(self.entries[i].id.as_slice(), id) {
                return Some(i);
            }
            i = i + 1;
        }
        None
    }

    /// The hotkey currently armed for the id, if the id is registered.
    pub fn armed_hotkey(&self, id: &[u8]) -> (r: Option<EncodedHotkey>)
        requires
            self.wf(),
        ensures
            r == armed_of(self@, id@),
    {
        match self.index_of(id) {
            Some(i) => {
                proof {
                    lemma_entry_for_unique(self@, id@, i as int);
                }
                Some(self.entries[i].encoded)
            },
            None => None,
        }
    }

    /// The accelerator stored for the id, exactly as it was supplied.
    pub fn stored_accelerator(&self, id: &[u8]) -> (r: Option<Vec<u8>>)
        requires
            self.wf(),
        ensures
            match r {
                Some(a) => contains_id(self@, id@) && a@ == entry_for(self@, id@).accelerator,
                None => !contains_id(self@, id@),
            },
    {
        match self.index_of(id) {
            Some(i) => {
                proof {
                    lemma_entry_for_unique(self@, id@, i as int);
                }
                Some(vstd::slice::slice_to_vec(self.entries[i].accelerator.as_slice()))
            },
            None => None,
        }
    }

    /// Parse the accelerator and say what registering it under the id asks
    /// of the OS layer: disarm whatever hotkey the id held before, then arm
    /// the new one. The registry itself is not changed; a parse failure is
    /// surfaced exactly and nothing is asked.
    pub fn plan_register(&self, id: &[u8], accelerator: &[u8]) -> (r: Result<
        RegisterPlan,
        ParseError,
    >)
        requires
            self.wf(),
        ensures
            r is Ok <==> accel_ok(accelerator@),
            r matches Ok(plan) ==> plan.arm == accel_hotkey(accelerator@) && plan.disarm
                == armed_of(self@, id@),
            r matches Err(e) ==> parse_error_matches(accelerator@, e),
    {
        match parse_accelerator(accelerator) {
            Ok(hk) => {
                let disarm = self.armed_hotkey(id);
                Ok(RegisterPlan { disarm, arm: hk })
            },
            Err(e) => Err(e),
        }
    }

    /// Remove the id's entry, keeping every other entry in order.
    fn remove_entry(&mut self, id: &[u8])
        requires
            old(self).wf(),
        ensures
            final(self).wf(),
            final(self)@ =~= remove_id(old(self)@, id@),
    {
        let ghost s0 = self@;
        let mut kept: Vec<HotkeyEntry> = Vec::new();
        let mut i: usize = 0;
        while i < self.entries.len()
            invariant
                i <= self.entries.len(),
                self@ == s0,
                kept@.map_values(|e: HotkeyEntry| e@) =~= remove_id(s0.take(i as int), id@),
            decreases self.entries.len() - i,
        {
            proof {
                assert(s0.take(i + 1).drop_last() =~= s0.take(i as int));
                assert(s0.take(i + 1).last() == s0[i as int]);
            }
            if !bytes_eq(self.entries[i].id.as_slice(), id) {
                let e = &self.entries[i];
                let copy = HotkeyEntry {
                    id: vstd::slice::slice_to_vec(e.id.as_slice()),
                    accelerator: vstd::slice::slice_to_vec(e.accelerator.as_slice()),
                    encoded: e.encoded,
                    platform_id: e.platform_id,
                };
                kept.push(copy);
                proof {
                    assert(kept@.map_values(|e: HotkeyEntry| e@) =~= remove_id(
                        s0.take(i as int),
                        id@,
                    ).push(s0[i as int]));
                }
            }
            i = i + 1;
        }
        proof {
            assert(s0.take(s0.len() as int) =~= s0);
            lemma_remove_id_wf(s0, id@);
        }
        self.entries = kept;
    }

    /// Record a registration the OS layer has confirmed: the id now holds
    /// the given accelerator, hotkey and platform identifier, and any entry
    /// the id held before is gone. Refused — with the registry unchanged —
    /// only when another id already holds the platform identifier, which a
    /// correctly armed hotkey never produces.
    pub fn commit_register(
        &mut self,
        id: &[u8],
        accelerator: &[u8],
        encoded: EncodedHotkey,
        platform_id: u32,
    ) -> (r: bool)
        requires
            old(self).wf(),
            accel_ok(accelerator@),
            encoded == accel_hotkey(accelerator@),
        ensures
            final(self).wf(),
            r <==> !(exists|i: int|
                0 <= i < old(self)@.len() && (#[trigger] old(self)@[i]).platform_id == platform_id
                    && old(self)@[i].id != id@),
            r ==> final(self)@ =~= remove_id(old(self)@, id@).push(
                EntryModel { id: id@, accelerator: accelerator@, encoded, platform_id },
            ),
            !r ==> final(self)@ == old(self)@,
    {
        let ghost s0 = self@;
        let mut i: usize = 0;
        while i < self.entries.len()
            invariant
                i <= self.entries.len(),
                self@ == s0,
                old(self)@ == s0,
                entries_wf(s0),
                forall|j: int|
                    0 <= j < i ==> !((#[trigger] s0[j]).platform_id == platform_id && s0[j].id
                        != id@),
            decreases self.entries.len() - i,
        {
            if self.entries[i].platform_id == platform_id && !bytes_eq(
                self.entries[i].id.as_slice(),
                id,
            ) {
                proof {
                    assert(s0[i as int] == self.entries@[i as int]@);
                    assert(exists|j: int|
                        0 <= j < old(self)@.len() && (#[trigger] old(self)@[j]).platform_id
                            == platform_id && old(self)@[j].id != id@);
                }
                return false;
            }
            i = i + 1;
        }
        self.remove_entry(id);
        let entry = HotkeyEntry {
            id: vstd::slice::slice_to_vec(id),
            accelerator: vstd::slice::slice_to_vec(accelerator),
            encoded,
            platform_id,
        };
        proof {
            lemma_remove_id_sub(s0, id@);
        }
        let ghost s1 = self@;
        self.entries.push(entry);
        proof {
            assert(self@ =~= s1.push(entry@));
            assert forall|k1: int, k2: int|
                0 <= k1 < k2 < self@.len() implies #[trigger] self@[k1].id
                != #[trigger] self@[k2].id by {
                if k2 == self@.len() - 1 {
                    assert(self@[k1] == s1[k1]);
                }
            }
            assert forall|k1: int, k2: int|
                0 <= k1 < k2 < self@.len() implies #[trigger] self@[k1].platform_id
                != #[trigger] self@[k2].platform_id by {
                if k2 == self@.len() - 1 {
                    assert(self@[k1] == s1[k1]);
                    let j = choose|j: int| 0 <= j < s0.len() && s0[j] == s1[k1];
                    assert(!(s0[j].platform_id == platform_id && s0[j].id != id@));
                }
            }
            assert forall|k: int|
                0 <= k < self@.len() implies accel_ok(#[trigger] self@[k].accelerator)
                && accel_hotkey(self@[k].accelerator) == self@[k].encoded by {
                if k < self@.len() - 1 {
                    assert(self@[k] == s1[k]);
                }
            }
        }
        true
    }

    /// Unregister the id: the entry is removed whether or not the OS layer
    /// will manage to disarm, and the hotkey to disarm is handed back. An
    /// id never registered succeeds with no effect and asks nothing of the
    /// OS layer.
    pub fn unregister(&mut self, id: &[u8]) -> (r: Option<EncodedHotkey>)
        requires
            old(self).wf(),
        ensures
            final(self).wf(),
            final(self)@ =~= remove_id(old(self)@, id@),
            r == armed_of(old(self)@, id@),
            !contains_id(old(self)@, id@) ==> final(self)@ == old(self)@,
    {
        let found = self.armed_hotkey(id);
        self.remove_entry(id);
        proof {
            if !contains_id(old(self)@, id@) {
                lemma_remove_id_absent(old(self)@, id@);
            }
        }
        found
    }

    /// Resolve a fired OS event to the logical id armed under its platform
    /// identifier; an identifier no entry holds is dropped.
    pub fn resolve_fired(&self, platform_id: u32) -> (r: Option<Vec<u8>>)
        requires
            self.wf(),
        ensures
            match r {
                Some(v) => exists|i: int|
                    0 <= i < self@.len() && (#[trigger] self@[i]).platform_id == platform_id
                        && self@[i].id == v@,
                None => !contains_pid(self@, platform_id),
            },
            r is Some <==> contains_pid(self@, platform_id),
    {
        let mut i: usize = 0;
        while i < self.entries.len()
            invariant
                i <= self.entries.len(),
                forall|j: int| 0 <= j < i ==> (#[trigger] self@[j]).platform_id != platform_id,
            decreases self.entries.len() - i,
        {
            if self.entries[i].platform_id == platform_id {
                proof {
                    assert(self@[i as int] == self.entries@[i as int]@);
                    assert(exists|j: int|
                        0 <= j < self@.len() && (#[trigger] self@[j]).platform_id == platform_id
                            && self@[j].id == self@[i as int].id);
                }
                return Some(vstd::slice::slice_to_vec(self.entries[i].id.as_slice()));
            }
            i = i + 1;
        }
        None
    }
}

/// Re-registering an id replaces its binding: after the first registration
/// the id holds the first hotkey — so the plan for the second registration
/// disarms exactly that one — and after the removal that precedes the
/// second commit no entry under the id is left; afterwards the id holds the
/// new binding alone.
pub proof fn lemma_reregister_replaces(s0: Seq<EntryModel>, e1: EntryModel, e2: EntryModel)
    requires
        e2.id == e1.id,
    ensures
        ({
            let s1 = remove_id(s0, e1.id).push(e1);
            let s2 = remove_id(s1, e2.id).push(e2);
            &&& armed_of(s1, e1.id) == Some(e1.encoded)
            &&& !contains_id(remove_id(s1, e2.id), e1.id)
            &&& armed_of(s2, e2.id) == Some(e2.encoded)
            &&& entry_for(s2, e2.id).accelerator == e2.accelerator
        }),
{
    let s1 = remove_id(s0, e1.id).push(e1);
    let s2 = remove_id(s1, e2.id).push(e2);
    lemma_remove_id_sub(s0, e1.id);
    lemma_remove_id_sub(s1, e2.id);
    assert(s1[s1.len() - 1] == e1);
    let k1 = choose|i: int| 0 <= i < s1.len() && s1[i].id == e1.id;
    if k1 < s1.len() - 1 {
        assert(s1[k1] == remove_id(s0, e1.id)[k1]);
        assert(false);
    }
    assert(s2[s2.len() - 1] == e2);
    let k2 = choose|i: int| 0 <= i < s2.len() && s2[i].id == e2.id;
    if k2 < s2.len() - 1 {
        assert(s2[k2] == remove_id(s1, e2.id)[k2]);
        assert(false);
    }
}

} // verus!
