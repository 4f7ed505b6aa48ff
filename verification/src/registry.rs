//! The vaults the application remembers between runs.
use vstd::prelude::*;

use crate::sort::{
    key_eq, lemma_seq_key_reflexive, lemma_sorted_keeps, lemma_sorted_members, lemma_sorted_no_repeat, sorted_by_key,
    stable_sort, stably_sorted, Keyed,
};
use crate::text::{chars_of, lowercase, lowercase_of, string_of, texts};
use crate::vault::model::forward_slashes;
use crate::vault::paths::{same_path, same_path_exec};
use crate::vault::resolve::{encode_chars, encode_text};

verus! {

broadcast use vstd::seq_lib::group_seq_lib_default;

/// The registered vault folders, as paths.
pub struct PersistedState {
    pub vaults: Vec<String>,
}

impl Default for PersistedState {
    fn default() -> (state: Self)
        ensures
            state.vaults@.len() == 0,
    {
        PersistedState { vaults: Vec::new() }
    }
}

/// How vault paths are ordered: by the lower-cased path with `\` written as `/`.
pub open spec fn vault_key(path: Seq<char>) -> Seq<char> {
    lowercase(forward_slashes(path))
}

/// A vault path, ordered by [`vault_key`].
impl Keyed for String {
    open spec fn sort_key(&self) -> Seq<u64> {
        encode_text(vault_key(self@))
    }

    fn sort_key_exec(&self) -> (key: Vec<u64>) {
        let key = path_key(self.as_str());
        encode_chars(&chars_of(key.as_str()))
    }
}

/// The ordering key of a vault path.
pub fn path_key(path: &str) -> (key: String)
    ensures
        key@ == vault_key(path@),
{
    let chars = chars_of(path);
    let mut out: Vec<char> = Vec::new();
    for i in 0..chars.len()
        invariant
            chars@ == path@,
            out@ == forward_slashes(chars@.take(i as int)),
    {
        let c = chars[i];
        out.push(if c == '\\' { '/' } else { c });
        assert(forward_slashes(chars@.take(i + 1)) =~= forward_slashes(chars@.take(i as int)).push(
            if c == '\\' { '/' } else { c },
        ));
    }
    assert(chars@.take(chars@.len() as int) =~= chars@);
    let slashed = string_of(out.as_slice());
    string_of(lowercase_of(slashed.as_str()).as_slice())
}

/// Some vault names the same place as `path` (see [`same_path`]).
pub open spec fn listed(vaults: Seq<String>, path: Seq<char>) -> bool {
    exists|i: int| 0 <= i < vaults.len() && same_path(#[trigger] vaults[i]@, path)
}

/// The texts without each one equal to the one before it (`Vec::dedup`).
pub open spec fn dedup_adjacent(s: Seq<Seq<char>>) -> Seq<Seq<char>>
    decreases s.len(),
{
    if s.len() == 0 {
        Seq::empty()
    } else {
        let before = dedup_adjacent(s.drop_last());
        if s.len() >= 2 && s[s.len() - 2] == s.last() {
            before
        } else {
            before.push(s.last())
        }
    }
}

/// The paths without each one that names the same place as the one before it (`Vec::dedup`
/// on paths).
pub open spec fn dedup_places(s: Seq<Seq<char>>) -> Seq<Seq<char>>
    decreases s.len(),
{
    if s.len() == 0 {
        Seq::empty()
    } else {
        let before = dedup_places(s.drop_last());
        if s.len() >= 2 && same_path(s[s.len() - 2], s.last()) {
            before
        } else {
            before.push(s.last())
        }
    }
}

/// A stable sort of the vaults with a new one added holds the old vaults and the new one.
proof fn lemma_registered_set(pushed: Seq<String>, sorted: Seq<String>, path: Seq<char>)
    requires
        stably_sorted(pushed, sorted),
        pushed.len() > 0,
        pushed.last()@ == path,
    ensures
        texts(sorted).to_set() == texts(pushed.drop_last()).to_set().insert(path),
{
    assert forall|t: Seq<char>| texts(sorted).to_set().contains(t) implies texts(pushed.drop_last()).to_set().insert(
        path,
    ).contains(t) by {
        let j = choose|j: int| 0 <= j < texts(sorted).len() && texts(sorted)[j] == t;
        lemma_sorted_members(pushed, sorted, j);
        let i = choose|i: int| 0 <= i < pushed.len() && pushed[i] == sorted[j];
        if i < pushed.len() - 1 {
            assert(texts(pushed.drop_last())[i] == t);
        }
    }
    assert forall|t: Seq<char>| texts(pushed.drop_last()).to_set().insert(path).contains(t) implies texts(
        sorted,
    ).to_set().contains(t) by {
        let i = if t == path {
            pushed.len() - 1
        } else {
            choose|i: int| 0 <= i < texts(pushed.drop_last()).len() && texts(pushed.drop_last())[i] == t
        };
        lemma_sorted_keeps(pushed, sorted, i);
        let j = choose|j: int| 0 <= j < sorted.len() && sorted[j] == pushed[i];
        assert(texts(sorted)[j] == t);
    }
    assert(texts(sorted).to_set() =~= texts(pushed.drop_last()).to_set().insert(path));
}

/// A stable sort of vaults without repeats, with a new one added, has no repeats.
proof fn lemma_registered_once(pushed: Seq<String>, sorted: Seq<String>)
    requires
        stably_sorted(pushed, sorted),
        pushed.len() > 0,
        texts(pushed.drop_last()).no_duplicates(),
        !texts(pushed.drop_last()).contains(pushed.last()@),
    ensures
        texts(sorted).no_duplicates(),
{
    assert forall|a: int, b: int| 0 <= a < b < texts(pushed).len() implies texts(pushed)[a] != texts(pushed)[b] by {
        if b < pushed.len() - 1 {
            assert(texts(pushed.drop_last())[a] == texts(pushed)[a]);
            assert(texts(pushed.drop_last())[b] == texts(pushed)[b]);
        } else {
            assert(texts(pushed.drop_last())[a] == texts(pushed)[a]);
        }
    }
    assert forall|i: int, j: int| 0 <= i < j < texts(sorted).len() implies texts(sorted)[i] != texts(sorted)[j] by {
        let x = sorted[i]@;
        let q = |e: String| e@ == x;
        assert forall|a: String, b: String| #[trigger] q(a) && #[trigger] q(b) implies key_eq(a.sort_key(), b.sort_key()) by {
            lemma_seq_key_reflexive(a.sort_key());
        }
        assert forall|a: int, b: int| 0 <= a < b < pushed.len() && q(#[trigger] pushed[a]) implies !q(#[trigger] pushed[b]) by {
            assert(texts(pushed)[a] != texts(pushed)[b]);
        }
        lemma_sorted_no_repeat(pushed, sorted, q, i, j);
    }
}

impl PersistedState {
    /// Adds a vault whose place is not yet registered and keeps the list ordered by
    /// [`vault_key`]; registering a listed place changes nothing.
    pub fn register(&mut self, path: String)
        ensures
            listed(old(self).vaults@, path@) ==> final(self).vaults@ == old(self).vaults@,
            !listed(old(self).vaults@, path@) ==> stably_sorted(old(self).vaults@.push(path), final(self).vaults@),
            listed(final(self).vaults@, path@),
            sorted_by_key(old(self).vaults@) ==> sorted_by_key(final(self).vaults@),
            texts(old(self).vaults@).no_duplicates() ==> texts(final(self).vaults@).no_duplicates(),
            !listed(old(self).vaults@, path@) ==> texts(final(self).vaults@).to_set() == texts(
                old(self).vaults@,
            ).to_set().insert(path@),
    {
        let mut i: usize = 0;
        while i < self.vaults.len()
            invariant
                i <= self.vaults.len(),
                self.vaults@ == old(self).vaults@,
                forall|k: int| 0 <= k < i ==> !same_path(#[trigger] self.vaults@[k]@, path@),
            decreases self.vaults.len() - i,
        {
            if same_path_exec(self.vaults[i].as_str(), path.as_str()) {
                assert(same_path(self.vaults@[i as int]@, path@));
                return;
            }
            i += 1;
        }
        assert(!listed(self.vaults@, path@));
        assert(!texts(self.vaults@).contains(path@)) by {
            if texts(self.vaults@).contains(path@) {
                let k = choose|k: int| 0 <= k < texts(self.vaults@).len() && texts(self.vaults@)[k] == path@;
                assert(same_path(self.vaults@[k]@, path@));
            }
        }
        let mut vaults = Vec::new();
        std::mem::swap(&mut vaults, &mut self.vaults);
        let ghost pushed = vaults@.push(path);
        vaults.push(path);
        let sorted = stable_sort(vaults);
        proof {
            lemma_sorted_keeps(pushed, sorted@, pushed.len() - 1);
            let j = choose|j: int| 0 <= j < sorted@.len() && sorted@[j] == pushed.last();
            assert(texts(sorted@)[j] == path@);
            assert(same_path(sorted@[j]@, path@));
            assert(pushed.drop_last() =~= old(self).vaults@);
            lemma_registered_set(pushed, sorted@, path@);
            if texts(old(self).vaults@).no_duplicates() {
                lemma_registered_once(pushed, sorted@);
            }
        }
        self.vaults = sorted;
    }

    /// Removes every entry that names the same place as `path`; the folder itself is left
    /// alone.
    pub fn forget(&mut self, path: &str)
        ensures
            texts(final(self).vaults@) == texts(old(self).vaults@).filter(|t: Seq<char>| !same_path(t, path@)),
            !listed(final(self).vaults@, path@),
    {
        let ghost all = texts(self.vaults@);
        let ghost pred = |t: Seq<char>| !same_path(t, path@);
        let mut kept: Vec<String> = Vec::new();
        for i in 0..self.vaults.len()
            invariant
                all == texts(self.vaults@),
                pred == (|t: Seq<char>| !same_path(t, path@)),
                texts(kept@) == all.take(i as int).filter(pred),
        {
            assert(all.take(i + 1).drop_last() =~= all.take(i as int));
            assert(all.take(i + 1).last() == self.vaults@[i as int]@);
            proof {
                all.take(i as int).lemma_filter_push(self.vaults@[i as int]@, pred);
                assert(all.take(i + 1) =~= all.take(i as int).push(self.vaults@[i as int]@));
            }
            if !same_path_exec(self.vaults[i].as_str(), path) {
                let ghost before = kept@;
                let x = self.vaults[i].clone();
                kept.push(x);
                proof {
                    crate::text::lemma_texts_push(before, x);
                }
            }
        }
        assert(all.take(all.len() as int) =~= all);
        proof {
            if listed(kept@, path@) {
                let j = choose|j: int| 0 <= j < kept@.len() && same_path(#[trigger] kept@[j]@, path@);
                assert(texts(kept@)[j] == kept@[j]@);
                all.lemma_filter_pred(pred, j);
            }
        }
        self.vaults = kept;
    }

    /// Orders the vaults by [`vault_key`] and drops each one that names the same place as the
    /// one before it.
    pub fn deduplicate(&mut self)
        ensures
            exists|sorted: Seq<String>|
                stably_sorted(old(self).vaults@, sorted) && texts(final(self).vaults@)
                    == dedup_places(#[trigger] texts(sorted)),
    {
        let mut vaults = Vec::new();
        std::mem::swap(&mut vaults, &mut self.vaults);
        let sorted = stable_sort(vaults);
        let ghost all = texts(sorted@);
        let mut kept: Vec<String> = Vec::new();
        for i in 0..sorted.len()
            invariant
                all == texts(sorted@),
                texts(kept@) == dedup_places(all.take(i as int)),
        {
            assert(all.take(i + 1).drop_last() =~= all.take(i as int));
            assert(all.take(i + 1).last() == all[i as int]);
            let repeat = i > 0 && same_path_exec(sorted[i - 1].as_str(), sorted[i].as_str());
            assert(repeat == (all.take(i + 1).len() >= 2 && same_path(all.take(i + 1)[i - 1], all[i as int])));
            if !repeat {
                let ghost before = kept@;
                let x = sorted[i].clone();
                kept.push(x);
                proof {
                    crate::text::lemma_texts_push(before, x);
                }
            }
        }
        assert(all.take(all.len() as int) =~= all);
        self.vaults = kept;
    }
}

} // verus!
