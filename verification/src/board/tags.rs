//! Tags as the board places them: normalized per note, gathered into clusters, and weighted by
//! how strongly two clusters are related.
use vstd::prelude::*;

use crate::registry::dedup_adjacent;
use crate::sort::{stable_sort, stably_sorted, Keyed, SortKey};
use crate::text::{
    chars_of, copy_span, lowercase, lowercase_of, same_chars, same_text, skip_class_forward, string_of,
    strip_start, texts, trim, trimmed_span, CharClass,
};
use crate::vault::model::{forward_slashes, ids, NoteId, NoteRecord};
use crate::vault::resolve::{encode_chars, encode_text, path_key, path_key_exec};

verus! {

broadcast use vstd::seq_lib::group_seq_lib_default;

/// The cluster key of notes without tags; it orders before every tag.
pub open spec fn untagged_key() -> Seq<char> {
    "\0atlas-untagged"@
}

/// One tag of a note: its cluster key (the lower-cased name) and the name as written.
pub struct TagEntry {
    pub key: String,
    pub name: String,
}

impl Keyed for TagEntry {
    open spec fn sort_key(&self) -> Seq<u64> {
        encode_text(self.key@)
    }

    fn sort_key_exec(&self) -> (key: Vec<u64>) {
        encode_chars(&chars_of(self.key.as_str()))
    }
}

/// The entries as pairs of texts.
pub open spec fn entry_views(entries: Seq<TagEntry>) -> Seq<(Seq<char>, Seq<char>)> {
    entries.map_values(|e: TagEntry| (e.key@, e.name@))
}

/// A tag as shown: trimmed, without leading `#`.
pub open spec fn tag_display(tag: Seq<char>) -> Seq<char> {
    strip_start(trim(tag), CharClass::Hash)
}

/// The keys of the entries.
pub open spec fn entry_keys(entries: Seq<(Seq<char>, Seq<char>)>) -> Seq<Seq<char>> {
    entries.map_values(|e: (Seq<char>, Seq<char>)| e.0)
}

/// The tags' entries in the order first seen: one per key, keeping the first name written.
pub open spec fn first_tags(tags: Seq<Seq<char>>) -> Seq<(Seq<char>, Seq<char>)>
    decreases tags.len(),
{
    if tags.len() == 0 {
        Seq::empty()
    } else {
        let before = first_tags(tags.drop_last());
        let d = tag_display(tags.last());
        if d.len() > 0 && !entry_keys(before).contains(lowercase(d)) {
            before.push((lowercase(d), d))
        } else {
            before
        }
    }
}

/// A note's tag entries before ordering: those of its tags, or the untagged entry.
pub open spec fn tag_entries(tags: Seq<Seq<char>>) -> Seq<(Seq<char>, Seq<char>)> {
    if first_tags(tags).len() == 0 {
        seq![(untagged_key(), "Untagged"@)]
    } else {
        first_tags(tags)
    }
}

/// Whether some entry has the key.
fn has_key(entries: &Vec<TagEntry>, key: &String) -> (r: bool)
    ensures
        r == entry_keys(entry_views(entries@)).contains(key@),
{
    let ghost keys = entry_keys(entry_views(entries@));
    for i in 0..entries.len()
        invariant
            keys == entry_keys(entry_views(entries@)),
            forall|k: int| 0 <= k < i ==> keys[k] != key@,
    {
        if same_text(&entries[i].key, key) {
            assert(keys[i as int] == key@);
            return true;
        }
    }
    false
}

/// A note's tags for placement: one entry per lower-cased name, keeping the first name
/// written, ordered by key; a note without tags has the single untagged entry.
pub fn normalized_tags(note: &NoteRecord) -> (entries: Vec<TagEntry>)
    ensures
        exists|found: Seq<TagEntry>|
            entry_views(found) == tag_entries(texts(note.tags@)) && #[trigger] stably_sorted(found, entries@),
{
    let ghost all = texts(note.tags@);
    let mut found: Vec<TagEntry> = Vec::new();
    for i in 0..note.tags.len()
        invariant
            all == texts(note.tags@),
            entry_views(found@) == first_tags(all.take(i as int)),
    {
        assert(all.take(i + 1).drop_last() =~= all.take(i as int));
        assert(all.take(i + 1).last() == note.tags@[i as int]@);
        let text = chars_of(note.tags[i].as_str());
        let (a, b) = trimmed_span(&text, 0, text.len(), CharClass::WhiteSpace);
        assert(text@.subrange(0, text@.len() as int) =~= text@);
        let c = skip_class_forward(&text, a, b, CharClass::Hash);
        let display = copy_span(&text, c, b);
        if display.len() > 0 {
            let name = string_of(display.as_slice());
            let key = string_of(lowercase_of(name.as_str()).as_slice());
            if !has_key(&found, &key) {
                let ghost before = entry_views(found@);
                found.push(TagEntry { key, name });
                assert(entry_views(found@) =~= before.push((key@, name@)));
            }
        }
    }
    assert(all.take(all.len() as int) =~= all);
    if found.len() == 0 {
        let key = string_of(chars_of("\0atlas-untagged").as_slice());
        let name = string_of(chars_of("Untagged").as_slice());
        found.push(TagEntry { key, name });
        assert(entry_views(found@) =~= seq![(untagged_key(), "Untagged"@)]);
    }
    let ghost unsorted = found@;
    let sorted = stable_sort(found);
    assert(stably_sorted(unsorted, sorted@));
    sorted
}

/// Identities order by their names compared one by one, as paths do.
impl Keyed for NoteId {
    open spec fn sort_key(&self) -> Seq<u64> {
        path_key(self@)
    }

    fn sort_key_exec(&self) -> (key: Vec<u64>) {
        path_key_exec(&chars_of(self.0.as_str()))
    }
}

/// What decides whether a note keeps its place on a rescan: its tag keys and the notes it is
/// related to.
#[derive(Clone, Debug)]
pub struct PlacementFingerprint {
    pub tags: Vec<String>,
    pub related: Vec<NoteId>,
}

/// Whether two fingerprints are the same: the same tag keys and the same related notes, in
/// the same order.
pub fn same_fingerprint(a: &PlacementFingerprint, b: &PlacementFingerprint) -> (same: bool)
    ensures
        same == (texts(a.tags@) == texts(b.tags@) && ids(a.related@) == ids(b.related@)),
{
    if a.tags.len() != b.tags.len() {
        assert(texts(a.tags@).len() != texts(b.tags@).len());
        return false;
    }
    if a.related.len() != b.related.len() {
        assert(ids(a.related@).len() != ids(b.related@).len());
        return false;
    }
    for i in 0..a.tags.len()
        invariant
            a.tags@.len() == b.tags@.len(),
            forall|j: int| 0 <= j < i ==> (#[trigger] a.tags@[j])@ == b.tags@[j]@,
    {
        if !same_text(&a.tags[i], &b.tags[i]) {
            assert(texts(a.tags@)[i as int] != texts(b.tags@)[i as int]);
            return false;
        }
    }
    assert(texts(a.tags@) =~= texts(b.tags@));
    for i in 0..a.related.len()
        invariant
            a.related@.len() == b.related@.len(),
            forall|j: int| 0 <= j < i ==> (#[trigger] a.related@[j])@ == b.related@[j]@,
    {
        if !a.related[i].same(&b.related[i]) {
            assert(ids(a.related@)[i as int] != ids(b.related@)[i as int]);
            return false;
        }
    }
    assert(ids(a.related@) =~= ids(b.related@));
    true
}

/// Whether a note keeps its place on a rescan of the same vault: it had a place in the earlier
/// layout, and its fingerprint then is the same as now.
pub fn keeps_place(current: &PlacementFingerprint, earlier: Option<&PlacementFingerprint>, had_place: bool) -> (keeps: bool)
    ensures
        keeps == (had_place && match earlier {
            Some(e) => texts(current.tags@) == texts(e.tags@) && ids(current.related@) == ids(e.related@),
            None => false,
        }),
{
    match earlier {
        Some(e) => had_place && same_fingerprint(current, e),
        None => false,
    }
}

/// Whether a rescan can keep the earlier layout whole: it placed as many notes as there are
/// now, and every note keeps its place.
pub fn exact_rescan(earlier_count: usize, keeps: &Vec<bool>) -> (exact: bool)
    ensures
        exact == (earlier_count == keeps@.len() && forall|i: int| 0 <= i < keeps@.len() ==> #[trigger] keeps@[i]),
{
    if earlier_count != keeps.len() {
        return false;
    }
    for i in 0..keeps.len()
        invariant
            forall|k: int| 0 <= k < i ==> #[trigger] keeps@[k],
    {
        if !keeps[i] {
            return false;
        }
    }
    true
}

/// A note's fingerprint: the keys of its tag entries, and its references and backlinks
/// ordered as paths with repeats dropped.
pub fn placement_fingerprint(note: &NoteRecord, tags: &Vec<TagEntry>) -> (fingerprint: PlacementFingerprint)
    ensures
        texts(fingerprint.tags@) == entry_keys(entry_views(tags@)),
        exists|sorted: Seq<NoteId>|
            #[trigger] stably_sorted(note.references@ + note.backlinks@, sorted) && ids(fingerprint.related@)
                == dedup_adjacent(ids(sorted)),
{
    let mut keys: Vec<String> = Vec::new();
    for i in 0..tags.len()
        invariant
            texts(keys@) == entry_keys(entry_views(tags@.take(i as int))),
    {
        let ghost before = keys@;
        let k = tags[i].key.clone();
        keys.push(k);
        proof {
            crate::text::lemma_texts_push(before, k);
        }
        assert(entry_keys(entry_views(tags@.take(i + 1))) =~= entry_keys(entry_views(tags@.take(i as int))).push(tags@[i as int].key@));
    }
    assert(tags@.take(tags@.len() as int) =~= tags@);
    let mut related: Vec<NoteId> = Vec::new();
    for i in 0..note.references.len()
        invariant
            related@ == note.references@.take(i as int),
    {
        related.push(NoteId(note.references[i].0.clone()));
        assert(related@.last() == note.references@[i as int]);
        assert(related@ =~= note.references@.take(i + 1));
    }
    assert(note.references@.take(note.references@.len() as int) =~= note.references@);
    for i in 0..note.backlinks.len()
        invariant
            related@ == note.references@ + note.backlinks@.take(i as int),
    {
        related.push(NoteId(note.backlinks[i].0.clone()));
        assert(related@.last() == note.backlinks@[i as int]);
        assert(related@ =~= note.references@ + note.backlinks@.take(i + 1));
    }
    assert(note.backlinks@.take(note.backlinks@.len() as int) =~= note.backlinks@);
    let ghost unsorted = related@;
    let sorted = stable_sort(related);
    let ghost all = ids(sorted@);
    let mut kept: Vec<NoteId> = Vec::new();
    for i in 0..sorted.len()
        invariant
            all == ids(sorted@),
            ids(kept@) == dedup_adjacent(all.take(i as int)),
            i > 0 ==> kept@.len() > 0 && kept@.last()@ == all[i - 1],
    {
        assert(all.take(i + 1).drop_last() =~= all.take(i as int));
        assert(all.take(i + 1).last() == all[i as int]);
        let repeat = i > 0 && sorted[i - 1].same(&sorted[i]);
        if !repeat {
            let ghost before = kept@;
            let d = sorted[i].duplicate();
            kept.push(d);
            assert(ids(kept@) =~= ids(before).push(d@));
        }
    }
    assert(all.take(all.len() as int) =~= all);
    assert(stably_sorted(unsorted, sorted@));
    PlacementFingerprint { tags: keys, related: kept }
}

/// The order notes are laid out in: by the lower-cased shown identity, then the shown
/// identity.
pub fn note_sort_key(note: &NoteRecord) -> (key: (String, String))
    ensures
        key.0@ == lowercase(forward_slashes(note.id@)),
        key.1@ == forward_slashes(note.id@),
{
    let shown = note.id.display();
    let lower = string_of(lowercase_of(shown.as_str()).as_slice());
    (lower, shown)
}


/// The layout order of notes as a number key: the lower-cased shown identity, a separator
/// below every character, then the shown identity; keys compare as [`note_sort_key`] pairs do.
pub open spec fn note_order_key(note: NoteRecord) -> Seq<u64> {
    encode_text(lowercase(forward_slashes(note.id@))) + seq![0u64] + encode_text(forward_slashes(note.id@))
}

/// Appends the numbers of `src` to `dst`.
pub fn push_codes(dst: &mut Vec<u64>, src: &Vec<u64>)
    ensures
        final(dst)@ == old(dst)@ + src@,
{
    let ghost start = dst@;
    for i in 0..src.len()
        invariant
            dst@ == start + src@.take(i as int),
    {
        dst.push(src[i]);
        assert(src@.take(i + 1) =~= src@.take(i as int).push(src@[i as int]));
    }
    assert(src@.take(src@.len() as int) =~= src@);
}

/// The layout order key of a note.
pub fn note_order_key_exec(note: &NoteRecord) -> (key: Vec<u64>)
    ensures
        key@ == note_order_key(*note),
{
    let (lower, shown) = note_sort_key(note);
    let mut key: Vec<u64> = Vec::new();
    push_codes(&mut key, &encode_chars(&chars_of(lower.as_str())));
    key.push(0);
    push_codes(&mut key, &encode_chars(&chars_of(shown.as_str())));
    assert(key@ =~= note_order_key(*note));
    key
}

/// `a` orders at or before `b` as strings do (by code points).
pub open spec fn text_le(a: Seq<char>, b: Seq<char>) -> bool {
    crate::sort::key_le(encode_text(a), encode_text(b))
}

fn text_le_exec(a: &String, b: &String) -> (r: bool)
    ensures
        r == text_le(a@, b@),
{
    let ka = encode_chars(&chars_of(a.as_str()));
    let kb = encode_chars(&chars_of(b.as_str()));
    SortKey::le(&ka, &kb)
}

/// The key under which the weight between two tags is kept: the pair, the smaller first.
pub open spec fn weight_key_of(left: Seq<char>, right: Seq<char>) -> (Seq<char>, Seq<char>) {
    if text_le(left, right) {
        (left, right)
    } else {
        (right, left)
    }
}

/// The key of the weight between two tags.
pub fn weight_key(left: &String, right: &String) -> (key: (String, String))
    ensures
        (key.0@, key.1@) == weight_key_of(left@, right@),
{
    if text_le_exec(left, right) {
        (left.clone(), right.clone())
    } else {
        (right.clone(), left.clone())
    }
}

/// The weight kept for one pair of tags.
pub struct WeightEntry {
    pub left: String,
    pub right: String,
    pub weight: u32,
}

/// How strongly pairs of tag clusters are related.
pub struct TagWeights {
    pub entries: Vec<WeightEntry>,
}

/// The weight kept under the key `(a, b)`.
pub open spec fn weight_at(entries: Seq<WeightEntry>, a: Seq<char>, b: Seq<char>) -> int
    decreases entries.len(),
{
    if entries.len() == 0 {
        0
    } else {
        weight_at(entries.drop_last(), a, b) + if entries.last().left@ == a && entries.last().right@ == b {
            entries.last().weight as int
        } else {
            0int
        }
    }
}

impl TagWeights {
    /// Each key is kept once.
    pub open spec fn wf(&self) -> bool {
        forall|i: int, j: int|
            0 <= i < j < self.entries@.len() ==> !((#[trigger] self.entries@[i]).left@ == (#[trigger] self.entries@[j]).left@
                && self.entries@[i].right@ == self.entries@[j].right@)
    }

    /// The weight between two tags as kept.
    pub open spec fn weight(&self, left: Seq<char>, right: Seq<char>) -> int {
        let key = weight_key_of(left, right);
        weight_at(self.entries@, key.0, key.1)
    }

    pub fn new() -> (weights: Self)
        ensures
            weights.wf(),
            weights.entries@.len() == 0,
    {
        TagWeights { entries: Vec::new() }
    }
}

proof fn lemma_weight_at_absent(entries: Seq<WeightEntry>, a: Seq<char>, b: Seq<char>)
    requires
        forall|i: int| 0 <= i < entries.len() ==> !((#[trigger] entries[i]).left@ == a && entries[i].right@ == b),
    ensures
        weight_at(entries, a, b) == 0,
    decreases entries.len(),
{
    if entries.len() > 0 {
        lemma_weight_at_absent(entries.drop_last(), a, b);
    }
}

proof fn lemma_weight_at_single(entries: Seq<WeightEntry>, a: Seq<char>, b: Seq<char>, k: int)
    requires
        0 <= k < entries.len(),
        entries[k].left@ == a && entries[k].right@ == b,
        forall|i: int| 0 <= i < entries.len() && i != k ==> !((#[trigger] entries[i]).left@ == a && entries[i].right@ == b),
    ensures
        weight_at(entries, a, b) == entries[k].weight,
    decreases entries.len(),
{
    if k < entries.len() - 1 {
        lemma_weight_at_single(entries.drop_last(), a, b, k);
    } else {
        lemma_weight_at_absent(entries.drop_last(), a, b);
    }
}

proof fn lemma_weight_at_update(entries: Seq<WeightEntry>, k: int, e: WeightEntry, a: Seq<char>, b: Seq<char>)
    requires
        0 <= k < entries.len(),
        e.left@ == entries[k].left@,
        e.right@ == entries[k].right@,
    ensures
        weight_at(entries.update(k, e), a, b) == weight_at(entries, a, b) + if e.left@ == a && e.right@ == b {
            e.weight - entries[k].weight
        } else {
            0int
        },
    decreases entries.len(),
{
    if k < entries.len() - 1 {
        lemma_weight_at_update(entries.drop_last(), k, e, a, b);
        assert(entries.update(k, e).drop_last() =~= entries.drop_last().update(k, e));
    } else {
        assert(entries.update(k, e).drop_last() =~= entries.drop_last());
    }
}

/// Adds `weight` to the weight between two tags.
pub fn add_tag_weight(weights: &mut TagWeights, left: &String, right: &String, weight: u32)
    requires
        old(weights).wf(),
        old(weights).weight(left@, right@) + weight <= u32::MAX,
    ensures
        final(weights).wf(),
        forall|a: Seq<char>, b: Seq<char>|
            #[trigger] weight_at(final(weights).entries@, a, b) == weight_at(old(weights).entries@, a, b) + if (a, b)
                == weight_key_of(left@, right@) {
                weight as int
            } else {
                0int
            },
{
    let (a, b) = weight_key(left, right);
    let ghost before = weights.entries@;
    let mut i: usize = 0;
    while i < weights.entries.len()
        invariant
            weights.entries@ == before,
            before == old(weights).entries@,
            weights.wf(),
            (a@, b@) == weight_key_of(left@, right@),
            weight_at(before, a@, b@) + weight <= u32::MAX,
            i <= before.len(),
            forall|k: int| 0 <= k < i ==> !((#[trigger] before[k]).left@ == a@ && before[k].right@ == b@),
        decreases before.len() - i,
    {
        if same_text(&weights.entries[i].left, &a) && same_text(&weights.entries[i].right, &b) {
            proof {
                assert forall|k: int| 0 <= k < before.len() && k != i implies !((#[trigger] before[k]).left@ == a@
                    && before[k].right@ == b@) by {
                    if k > i {
                        assert(!(before[i as int].left@ == before[k].left@ && before[i as int].right@ == before[k].right@));
                    }
                }
                lemma_weight_at_single(before, a@, b@, i as int);
            }
            let updated = WeightEntry {
                left: weights.entries[i].left.clone(),
                right: weights.entries[i].right.clone(),
                weight: weights.entries[i].weight + weight,
            };
            let ghost e = updated;
            assert(e.left@ == a@ && e.right@ == b@);
            assert(e.weight - before[i as int].weight == weight);
            weights.entries.set(i, updated);
            assert(weights.entries@ == before.update(i as int, e));
            proof {
                assert forall|x: Seq<char>, y: Seq<char>| #[trigger] weight_at(weights.entries@, x, y) == weight_at(before, x, y) + if (x, y)
                    == weight_key_of(left@, right@) {
                    weight as int
                } else {
                    0int
                } by {
                    lemma_weight_at_update(before, i as int, e, x, y);
                    if (x, y) == weight_key_of(left@, right@) {
                        assert(x == a@ && y == b@);
                    } else {
                        assert(!(x == a@ && y == b@));
                    }
                }
            }
            return;
        }
        i += 1;
    }
    proof {
        lemma_weight_at_absent(before, a@, b@);
    }
    let ghost e = WeightEntry { left: a, right: b, weight };
    weights.entries.push(WeightEntry { left: a, right: b, weight });
    assert(weights.entries@ == before.push(e));
    assert(weights.entries@.drop_last() =~= before);
}

/// The weight between two tags; a tag has no weight with itself.
pub fn tag_weight(left: &String, right: &String, weights: &TagWeights) -> (weight: u32)
    requires
        weights.wf(),
    ensures
        weight == (if left@ == right@ {
            0
        } else {
            weights.weight(left@, right@)
        }),
{
    if same_text(left, right) {
        return 0;
    }
    stored_weight(left, right, weights)
}

/// The weight kept between two tags.
fn stored_weight(left: &String, right: &String, weights: &TagWeights) -> (weight: u32)
    requires
        weights.wf(),
    ensures
        weight == weights.weight(left@, right@),
{
    let (a, b) = weight_key(left, right);
    let ghost entries = weights.entries@;
    for i in 0..weights.entries.len()
        invariant
            entries == weights.entries@,
            (a@, b@) == weight_key_of(left@, right@),
            weights.wf(),
            forall|k: int| 0 <= k < i ==> !((#[trigger] entries[k]).left@ == a@ && entries[k].right@ == b@),
    {
        if same_text(&weights.entries[i].left, &a) && same_text(&weights.entries[i].right, &b) {
            proof {
                assert forall|k: int| 0 <= k < entries.len() && k != i implies !((#[trigger] entries[k]).left@ == a@
                    && entries[k].right@ == b@) by {
                    if k > i {
                        assert(!(entries[i as int].left@ == entries[k].left@ && entries[i as int].right@ == entries[k].right@));
                    }
                }
                lemma_weight_at_single(entries, a@, b@, i as int);
            }
            return weights.entries[i].weight;
        }
    }
    proof {
        lemma_weight_at_absent(entries, a@, b@);
    }
    0
}

/// The total weight of the entries that involve `tag`.
pub open spec fn degree_of(entries: Seq<WeightEntry>, tag: Seq<char>) -> int
    decreases entries.len(),
{
    if entries.len() == 0 {
        0
    } else {
        degree_of(entries.drop_last(), tag) + if entries.last().left@ == tag || entries.last().right@ == tag {
            entries.last().weight as int
        } else {
            0int
        }
    }
}

proof fn lemma_degree_bound(entries: Seq<WeightEntry>, tag: Seq<char>)
    ensures
        0 <= degree_of(entries, tag) <= entries.len() * 4294967295,
    decreases entries.len(),
{
    if entries.len() > 0 {
        lemma_degree_bound(entries.drop_last(), tag);
    }
}

/// The total weight between `tag` and every other tag.
pub fn weighted_degree(tag: &String, weights: &TagWeights) -> (degree: u32)
    requires
        degree_of(weights.entries@, tag@) <= u32::MAX,
    ensures
        degree == degree_of(weights.entries@, tag@),
{
    let ghost entries = weights.entries@;
    let mut total: u128 = 0;
    for i in 0..weights.entries.len()
        invariant
            entries == weights.entries@,
            total == degree_of(entries.take(i as int), tag@),
    {
        assert(entries.take(i + 1).drop_last() =~= entries.take(i as int));
        proof {
            lemma_degree_bound(entries.take(i as int), tag@);
        }
        let e = &weights.entries[i];
        if same_text(&e.left, tag) || same_text(&e.right, tag) {
            total = total + e.weight as u128;
        }
    }
    assert(entries.take(entries.len() as int) =~= entries);
    total as u32
}

/// The total weight between `tag` and the tags in `placed`.
pub open spec fn placed_sum(tag: Seq<char>, placed: Seq<Seq<char>>, weights: TagWeights) -> int
    decreases placed.len(),
{
    if placed.len() == 0 {
        0
    } else {
        placed_sum(tag, placed.drop_last(), weights) + if tag == placed.last() {
            0
        } else {
            weights.weight(tag, placed.last())
        }
    }
}

proof fn lemma_placed_sum_grows(tag: Seq<char>, placed: Seq<Seq<char>>, weights: TagWeights, i: int)
    requires
        0 <= i <= placed.len(),
        forall|a: Seq<char>, b: Seq<char>| 0 <= #[trigger] weight_at(weights.entries@, a, b),
    ensures
        placed_sum(tag, placed.take(i), weights) <= placed_sum(tag, placed, weights),
    decreases placed.len() - i,
{
    if i < placed.len() {
        lemma_placed_sum_grows(tag, placed, weights, i + 1);
        assert(placed.take(i + 1).drop_last() =~= placed.take(i));
        let key = weight_key_of(tag, placed[i]);
        assert(0 <= weight_at(weights.entries@, key.0, key.1));
    } else {
        assert(placed.take(i) =~= placed);
    }
}

proof fn lemma_weight_at_nonnegative(entries: Seq<WeightEntry>, a: Seq<char>, b: Seq<char>)
    ensures
        0 <= weight_at(entries, a, b),
    decreases entries.len(),
{
    if entries.len() > 0 {
        lemma_weight_at_nonnegative(entries.drop_last(), a, b);
    }
}

/// The total weight between `tag` and the tags already placed.
pub fn placed_weight(tag: &String, placed: &Vec<String>, weights: &TagWeights) -> (weight: u32)
    requires
        weights.wf(),
        placed_sum(tag@, texts(placed@), *weights) <= u32::MAX,
    ensures
        weight == placed_sum(tag@, texts(placed@), *weights),
{
    let ghost all = texts(placed@);
    proof {
        assert forall|a: Seq<char>, b: Seq<char>| 0 <= #[trigger] weight_at(weights.entries@, a, b) by {
            lemma_weight_at_nonnegative(weights.entries@, a, b);
        }
    }
    let mut total: u32 = 0;
    for i in 0..placed.len()
        invariant
            all == texts(placed@),
            weights.wf(),
            forall|a: Seq<char>, b: Seq<char>| 0 <= #[trigger] weight_at(weights.entries@, a, b),
            placed_sum(tag@, all, *weights) <= u32::MAX,
            total == placed_sum(tag@, all.take(i as int), *weights),
    {
        assert(all.take(i + 1).drop_last() =~= all.take(i as int));
        assert(all.take(i + 1).last() == placed@[i as int]@);
        proof {
            lemma_placed_sum_grows(tag@, all, *weights, i + 1);
        }
        let w = tag_weight(tag, &placed[i], weights);
        total = total + w;
    }
    assert(all.take(all.len() as int) =~= all);
    total
}


/// An increment of the weight between two tags.
pub type WeightEvent = (Seq<char>, Seq<char>, int);

/// The total of the increments whose pair has the key `(a, b)`.
pub open spec fn total_for(events: Seq<WeightEvent>, a: Seq<char>, b: Seq<char>) -> int
    decreases events.len(),
{
    if events.len() == 0 {
        0
    } else {
        total_for(events.drop_last(), a, b) + if weight_key_of(events.last().0, events.last().1) == (a, b) {
            events.last().2
        } else {
            0int
        }
    }
}

proof fn lemma_total_prefix(events: Seq<WeightEvent>, n: int, a: Seq<char>, b: Seq<char>)
    requires
        0 <= n <= events.len(),
        forall|i: int| 0 <= i < events.len() ==> (#[trigger] events[i]).2 >= 0,
    ensures
        total_for(events.take(n), a, b) <= total_for(events, a, b),
    decreases events.len() - n,
{
    if n < events.len() {
        lemma_total_prefix(events, n + 1, a, b);
        assert(events.take(n + 1).drop_last() =~= events.take(n));
    } else {
        assert(events.take(n) =~= events);
    }
}

/// The keys of a note's tag entries.
pub open spec fn tag_keys(entries: Seq<TagEntry>) -> Seq<Seq<char>> {
    entry_keys(entry_views(entries))
}

/// The position of the last note with the identity, if any.
pub open spec fn last_index(notes: Seq<NoteRecord>, id: Seq<char>) -> Option<int>
    decreases notes.len(),
{
    if notes.len() == 0 {
        None
    } else if notes.last().id@ == id {
        Some(notes.len() - 1)
    } else {
        last_index(notes.drop_last(), id)
    }
}

/// The tag keys of the note with the identity (the last such note).
pub open spec fn tags_for(notes: Seq<NoteRecord>, note_tags: Seq<Vec<TagEntry>>, id: Seq<char>) -> Seq<Seq<char>> {
    match last_index(notes, id) {
        Some(j) => tag_keys(note_tags[j]@),
        None => Seq::empty(),
    }
}

/// The membership increments of one row: `keys[l]` with each later key, 4 each.
pub open spec fn pair_row(keys: Seq<Seq<char>>, l: int) -> Seq<WeightEvent> {
    Seq::new((keys.len() - l - 1) as nat, |k: int| (keys[l], keys[l + 1 + k], 4int))
}

/// The membership increments of the first `n` rows.
pub open spec fn pair_rows(keys: Seq<Seq<char>>, n: int) -> Seq<WeightEvent>
    decreases n,
{
    if n <= 0 {
        Seq::empty()
    } else {
        pair_rows(keys, n - 1) + pair_row(keys, n - 1)
    }
}

/// The membership increments of the first `n` notes: 4 for every pair of a note's tags.
pub open spec fn membership_events(notes: Seq<NoteRecord>, note_tags: Seq<Vec<TagEntry>>, n: int) -> Seq<WeightEvent>
    decreases n,
{
    if n <= 0 {
        Seq::empty()
    } else {
        let keys = tags_for(notes, note_tags, notes[n - 1].id@);
        membership_events(notes, note_tags, n - 1) + pair_rows(keys, keys.len() as int)
    }
}

/// The reference increments of one tag of the source: 1 with each different tag of the
/// target.
pub open spec fn cross_row(left: Seq<char>, rights: Seq<Seq<char>>) -> Seq<WeightEvent> {
    rights.filter(other_than(left)).map_values(paired_with(left))
}

/// Whether a tag differs from `left`.
pub open spec fn other_than(left: Seq<char>) -> spec_fn(Seq<char>) -> bool {
    |r: Seq<char>| r != left
}

/// The increment of 1 between `left` and a tag.
pub open spec fn paired_with(left: Seq<char>) -> spec_fn(Seq<char>) -> WeightEvent {
    |r: Seq<char>| (left, r, 1int)
}

/// The reference increments between the first `n` tags of the source and the target's tags.
pub open spec fn cross_rows(lefts: Seq<Seq<char>>, rights: Seq<Seq<char>>, n: int) -> Seq<WeightEvent>
    decreases n,
{
    if n <= 0 {
        Seq::empty()
    } else {
        cross_rows(lefts, rights, n - 1) + cross_row(lefts[n - 1], rights)
    }
}

/// The identities without repeats, in the order first seen.
pub open spec fn distinct_ids(v: Seq<Seq<char>>) -> Seq<Seq<char>>
    decreases v.len(),
{
    if v.len() == 0 {
        Seq::empty()
    } else {
        let before = distinct_ids(v.drop_last());
        if before.contains(v.last()) {
            before
        } else {
            before.push(v.last())
        }
    }
}

/// The reference increments of one note towards its first `m` distinct targets that are notes.
pub open spec fn target_events(
    notes: Seq<NoteRecord>,
    note_tags: Seq<Vec<TagEntry>>,
    source: Seq<char>,
    targets: Seq<Seq<char>>,
    m: int,
) -> Seq<WeightEvent>
    decreases m,
{
    if m <= 0 {
        Seq::empty()
    } else {
        let before = target_events(notes, note_tags, source, targets, m - 1);
        let t = targets[m - 1];
        if last_index(notes, t) is Some {
            let lefts = tags_for(notes, note_tags, source);
            before + cross_rows(lefts, tags_for(notes, note_tags, t), lefts.len() as int)
        } else {
            before
        }
    }
}

/// The reference increments of the first `n` notes.
pub open spec fn reference_events(notes: Seq<NoteRecord>, note_tags: Seq<Vec<TagEntry>>, n: int) -> Seq<WeightEvent>
    decreases n,
{
    if n <= 0 {
        Seq::empty()
    } else {
        let source = notes[n - 1].id@;
        let targets = distinct_ids(ids(notes[n - 1].references@));
        reference_events(notes, note_tags, n - 1) + target_events(notes, note_tags, source, targets, targets.len() as int)
    }
}

/// Every increment the relationship weights are built from.
pub open spec fn weight_events(notes: Seq<NoteRecord>, note_tags: Seq<Vec<TagEntry>>) -> Seq<WeightEvent> {
    membership_events(notes, note_tags, notes.len() as int) + reference_events(notes, note_tags, notes.len() as int)
}

/// Increments are never negative.
pub open spec fn nonnegative_events(events: Seq<WeightEvent>) -> bool {
    forall|i: int| 0 <= i < events.len() ==> (#[trigger] events[i]).2 >= 0
}

/// Applies one increment to the weights, keeping the totals in step with the increments.
fn apply_event(
    weights: &mut TagWeights,
    left: &String,
    right: &String,
    amount: u32,
    Ghost(all): Ghost<Seq<WeightEvent>>,
    Ghost(done): Ghost<Seq<WeightEvent>>,
)
    requires
        old(weights).wf(),
        done.len() < all.len(),
        done == all.take(done.len() as int),
        all[done.len() as int] == (left@, right@, amount as int),
        nonnegative_events(all),
        forall|a: Seq<char>, b: Seq<char>| #[trigger] total_for(all, a, b) <= u32::MAX,
        forall|a: Seq<char>, b: Seq<char>| #[trigger] weight_at(old(weights).entries@, a, b) == total_for(done, a, b),
    ensures
        final(weights).wf(),
        forall|a: Seq<char>, b: Seq<char>|
            #[trigger] weight_at(final(weights).entries@, a, b) == total_for(done.push((left@, right@, amount as int)), a, b),
{
    let ghost next = done.push((left@, right@, amount as int));
    assert(all.take(done.len() + 1int) =~= next);
    let ghost key = weight_key_of(left@, right@);
    proof {
        lemma_total_prefix(all, done.len() + 1int, key.0, key.1);
        assert(next.drop_last() =~= done);
    }
    assert(old(weights).weight(left@, right@) + amount <= u32::MAX);
    add_tag_weight(weights, left, right, amount);
    proof {
        assert forall|a: Seq<char>, b: Seq<char>| #[trigger] weight_at(weights.entries@, a, b) == total_for(next, a, b) by {
            assert(next.drop_last() =~= done);
        }
    }
}

/// The tag keys of the note at `j`, taken from the last note with the same identity.
fn tags_for_exec(notes: &Vec<NoteRecord>, note_tags: &Vec<Vec<TagEntry>>, id: &NoteId) -> (keys: Vec<String>)
    requires
        note_tags@.len() == notes@.len(),
    ensures
        texts(keys@) == tags_for(notes@, note_tags@, id@),
{
    let mut j = notes.len();
    assert(notes@.take(notes@.len() as int) =~= notes@);
    while j > 0
        invariant
            j <= notes@.len(),
            note_tags@.len() == notes@.len(),
            last_index(notes@, id@) == last_index(notes@.take(j as int), id@),
        decreases j,
    {
        assert(notes@.take(j as int).drop_last() =~= notes@.take(j - 1));
        if notes[j - 1].id.same(id) {
            assert(notes@.take(j as int).last() == notes@[j - 1]);
            assert(last_index(notes@, id@) == Some(j - 1));
            let entries = &note_tags[j - 1];
            let mut keys: Vec<String> = Vec::new();
            for k in 0..entries.len()
                invariant
                    texts(keys@) == tag_keys(entries@.take(k as int)),
            {
                let ghost before = keys@;
                let key = entries[k].key.clone();
                keys.push(key);
                proof {
                    crate::text::lemma_texts_push(before, key);
                }
                assert(tag_keys(entries@.take(k + 1)) =~= tag_keys(entries@.take(k as int)).push(entries@[k as int].key@));
            }
            assert(entries@.take(entries@.len() as int) =~= entries@);
            return keys;
        }
        j -= 1;
    }
    assert(notes@.take(0) =~= Seq::<NoteRecord>::empty());
    let none: Vec<String> = Vec::new();
    assert(texts(none@) =~= Seq::<Seq<char>>::empty());
    none
}


/// Increments as texts and numbers.
pub open spec fn event_views(events: Seq<(String, String, u32)>) -> Seq<WeightEvent> {
    events.map_values(|e: (String, String, u32)| (e.0@, e.1@, e.2 as int))
}

fn push_event(events: &mut Vec<(String, String, u32)>, left: &String, right: &String, amount: u32)
    ensures
        event_views(final(events)@) == event_views(old(events)@).push((left@, right@, amount as int)),
{
    events.push((left.clone(), right.clone(), amount));
    assert(event_views(events@) =~= event_views(old(events)@).push((left@, right@, amount as int)));
}

/// The distinct identities referenced, in the order first seen.
fn distinct_targets(references: &Vec<NoteId>) -> (targets: Vec<NoteId>)
    ensures
        ids(targets@) == distinct_ids(ids(references@)),
{
    let ghost all = ids(references@);
    let mut targets: Vec<NoteId> = Vec::new();
    for i in 0..references.len()
        invariant
            all == ids(references@),
            ids(targets@) == distinct_ids(all.take(i as int)),
    {
        assert(all.take(i + 1).drop_last() =~= all.take(i as int));
        assert(all.take(i + 1).last() == references@[i as int]@);
        if !crate::vault::model::contains_id(&targets, &references[i]) {
            let ghost before = targets@;
            let d = references[i].duplicate();
            targets.push(d);
            assert(ids(targets@) =~= ids(before).push(d@));
        }
    }
    assert(all.take(all.len() as int) =~= all);
    targets
}

/// Whether some note has the identity.
fn has_note(notes: &Vec<NoteRecord>, id: &NoteId) -> (r: bool)
    ensures
        r == (last_index(notes@, id@) is Some),
{
    let mut j = notes.len();
    assert(notes@.take(notes@.len() as int) =~= notes@);
    while j > 0
        invariant
            j <= notes@.len(),
            last_index(notes@, id@) == last_index(notes@.take(j as int), id@),
        decreases j,
    {
        assert(notes@.take(j as int).drop_last() =~= notes@.take(j - 1));
        if notes[j - 1].id.same(id) {
            assert(notes@.take(j as int).last() == notes@[j - 1]);
            return true;
        }
        j -= 1;
    }
    false
}

/// Appends the membership increments of one note's tag keys.
fn push_pair_rows(events: &mut Vec<(String, String, u32)>, keys: &Vec<String>)
    ensures
        event_views(final(events)@) == event_views(old(events)@) + pair_rows(texts(keys@), keys@.len() as int),
{
    let ghost kv = texts(keys@);
    let ghost start = event_views(events@);
    for l in 0..keys.len()
        invariant
            kv == texts(keys@),
            event_views(events@) == start + pair_rows(kv, l as int),
    {
        let ghost row_start = event_views(events@);
        for r in l + 1..keys.len()
            invariant
                kv == texts(keys@),
                l < keys@.len(),
                event_views(events@) == row_start + pair_row(kv, l as int).take(r - l - 1),
        {
            push_event(events, &keys[l], &keys[r], 4);
            assert(pair_row(kv, l as int).take(r - l) =~= pair_row(kv, l as int).take(r - l - 1).push(
                (kv[l as int], kv[r as int], 4int),
            ));
        }
        assert(pair_row(kv, l as int).take(keys@.len() - l - 1) =~= pair_row(kv, l as int));
    }
}

/// Appends the reference increments between two notes' tag keys.
fn push_cross_rows(events: &mut Vec<(String, String, u32)>, lefts: &Vec<String>, rights: &Vec<String>)
    ensures
        event_views(final(events)@) == event_views(old(events)@) + cross_rows(
            texts(lefts@),
            texts(rights@),
            lefts@.len() as int,
        ),
{
    let ghost lv = texts(lefts@);
    let ghost rv = texts(rights@);
    let ghost start = event_views(events@);
    for l in 0..lefts.len()
        invariant
            lv == texts(lefts@),
            rv == texts(rights@),
            event_views(events@) == start + cross_rows(lv, rv, l as int),
    {
        let ghost row_start = event_views(events@);
        let ghost left = lv[l as int];
        let ghost pred = other_than(left);
        let ghost f = paired_with(left);
        for k in 0..rights.len()
            invariant
                lv == texts(lefts@),
                rv == texts(rights@),
                l < lefts@.len(),
                left == lv[l as int],
                pred == other_than(left),
                f == paired_with(left),
                event_views(events@) == row_start + rv.take(k as int).filter(pred).map_values(f),
        {
            proof {
                rv.take(k as int).lemma_filter_push(rv[k as int], pred);
                assert(rv.take(k + 1) =~= rv.take(k as int).push(rv[k as int]));
            }
            if !same_text(&rights[k], &lefts[l]) {
                let ghost before = rv.take(k as int).filter(pred);
                push_event(events, &lefts[l], &rights[k], 1);
                assert(before.push(rv[k as int]).map_values(f) =~= before.map_values(f).push(f(rv[k as int])));
            }
        }
        assert(rv.take(rights@.len() as int) =~= rv);
    }
}

/// Every increment of the relationship weights, in order.
fn build_events(notes: &Vec<NoteRecord>, note_tags: &Vec<Vec<TagEntry>>) -> (events: Vec<(String, String, u32)>)
    requires
        note_tags@.len() == notes@.len(),
    ensures
        event_views(events@) == weight_events(notes@, note_tags@),
{
    let mut events: Vec<(String, String, u32)> = Vec::new();
    assert(event_views(events@) =~= Seq::<WeightEvent>::empty());
    for j in 0..notes.len()
        invariant
            note_tags@.len() == notes@.len(),
            event_views(events@) == membership_events(notes@, note_tags@, j as int),
    {
        let keys = tags_for_exec(notes, note_tags, &notes[j].id);
        push_pair_rows(&mut events, &keys);
    }
    let ghost members = event_views(events@);
    for j in 0..notes.len()
        invariant
            note_tags@.len() == notes@.len(),
            members == membership_events(notes@, note_tags@, notes@.len() as int),
            event_views(events@) == members + reference_events(notes@, note_tags@, j as int),
    {
        let source = &notes[j].id;
        let targets = distinct_targets(&notes[j].references);
        let lefts = tags_for_exec(notes, note_tags, source);
        let ghost tv = ids(targets@);
        let ghost before = event_views(events@);
        for m in 0..targets.len()
            invariant
                note_tags@.len() == notes@.len(),
                j < notes@.len(),
                source@ == notes@[j as int].id@,
                tv == ids(targets@),
                tv == distinct_ids(ids(notes@[j as int].references@)),
                texts(lefts@) == tags_for(notes@, note_tags@, source@),
                event_views(events@) == before + target_events(notes@, note_tags@, source@, tv, m as int),
        {
            assert(tv[m as int] == targets@[m as int]@);
            if has_note(notes, &targets[m]) {
                let rights = tags_for_exec(notes, note_tags, &targets[m]);
                push_cross_rows(&mut events, &lefts, &rights);
            }
        }
    }
    events
}

/// How strongly tag clusters are related: 4 for every note that carries both tags, and 1
/// for every reference from a note to a note for every pair of a tag of the first and a
/// different tag of the second; each referenced note counts once per note.
pub fn tag_relationship_weights(notes: &Vec<NoteRecord>, note_tags: &Vec<Vec<TagEntry>>) -> (weights: TagWeights)
    requires
        note_tags@.len() == notes@.len(),
        forall|a: Seq<char>, b: Seq<char>| #[trigger] total_for(weight_events(notes@, note_tags@), a, b) <= u32::MAX,
    ensures
        weights.wf(),
        forall|a: Seq<char>, b: Seq<char>|
            #[trigger] weight_at(weights.entries@, a, b) == total_for(weight_events(notes@, note_tags@), a, b),
{
    let events = build_events(notes, note_tags);
    let ghost all = event_views(events@);
    assert(nonnegative_events(all));
    let mut weights = TagWeights::new();
    proof {
        assert forall|a: Seq<char>, b: Seq<char>| #[trigger] weight_at(weights.entries@, a, b) == total_for(all.take(0), a, b) by {
            assert(all.take(0) =~= Seq::<WeightEvent>::empty());
        }
    }
    for i in 0..events.len()
        invariant
            all == event_views(events@),
            all == weight_events(notes@, note_tags@),
            nonnegative_events(all),
            forall|a: Seq<char>, b: Seq<char>| #[trigger] total_for(all, a, b) <= u32::MAX,
            weights.wf(),
            forall|a: Seq<char>, b: Seq<char>| #[trigger] weight_at(weights.entries@, a, b) == total_for(all.take(i as int), a, b),
    {
        assert(all[i as int] == (events@[i as int].0@, events@[i as int].1@, events@[i as int].2 as int));
        apply_event(&mut weights, &events[i].0, &events[i].1, events[i].2, Ghost(all), Ghost(all.take(i as int)));
        assert(all.take(i as int).push(all[i as int]) =~= all.take(i + 1));
    }
    assert(all.take(all.len() as int) =~= all);
    weights
}

/// A kept weight fits in a `u32`: each key is kept once.
proof fn lemma_weight_at_fits(weights: TagWeights, a: Seq<char>, b: Seq<char>)
    requires
        weights.wf(),
    ensures
        weight_at(weights.entries@, a, b) <= u32::MAX,
{
    let entries = weights.entries@;
    if exists|k: int| 0 <= k < entries.len() && (#[trigger] entries[k]).left@ == a && entries[k].right@ == b {
        let k = choose|k: int| 0 <= k < entries.len() && (#[trigger] entries[k]).left@ == a && entries[k].right@ == b;
        assert forall|i: int| 0 <= i < entries.len() && i != k implies !((#[trigger] entries[i]).left@ == a
            && entries[i].right@ == b) by {
            if i < k {
                assert(!(entries[i].left@ == entries[k].left@ && entries[i].right@ == entries[k].right@));
            } else {
                assert(!(entries[k].left@ == entries[i].left@ && entries[k].right@ == entries[i].right@));
            }
        }
        lemma_weight_at_single(entries, a, b, k);
    } else {
        lemma_weight_at_absent(entries, a, b);
    }
}

/// The increments for some pair of tags add up to more than a `u32` holds.
pub open spec fn weights_overflow(notes: Seq<NoteRecord>, note_tags: Seq<Vec<TagEntry>>) -> bool {
    exists|a: Seq<char>, b: Seq<char>| #[trigger] total_for(weight_events(notes, note_tags), a, b) > u32::MAX
}

/// The relationship weights of [`tag_relationship_weights`], or `None` exactly when the weight
/// between some pair of tags would not fit in a `u32`.
pub fn checked_tag_relationship_weights(notes: &Vec<NoteRecord>, note_tags: &Vec<Vec<TagEntry>>) -> (weights: Option<
    TagWeights,
>)
    requires
        note_tags@.len() == notes@.len(),
    ensures
        weights is None <==> weights_overflow(notes@, note_tags@),
        weights matches Some(w) ==> w.wf() && forall|a: Seq<char>, b: Seq<char>|
            #[trigger] weight_at(w.entries@, a, b) == total_for(weight_events(notes@, note_tags@), a, b),
{
    let events = build_events(notes, note_tags);
    let ghost all = event_views(events@);
    assert(nonnegative_events(all));
    let mut weights = TagWeights::new();
    proof {
        assert forall|a: Seq<char>, b: Seq<char>| #[trigger] weight_at(weights.entries@, a, b) == total_for(all.take(0), a, b) by {
            assert(all.take(0) =~= Seq::<WeightEvent>::empty());
        }
    }
    for i in 0..events.len()
        invariant
            all == event_views(events@),
            all == weight_events(notes@, note_tags@),
            nonnegative_events(all),
            weights.wf(),
            forall|a: Seq<char>, b: Seq<char>| #[trigger] weight_at(weights.entries@, a, b) == total_for(all.take(i as int), a, b),
    {
        let ghost done = all.take(i as int);
        let ghost next = all.take(i + 1);
        assert(all[i as int] == (events@[i as int].0@, events@[i as int].1@, events@[i as int].2 as int));
        assert(next.drop_last() =~= done);
        let amount = events[i].2;
        let current = stored_weight(&events[i].0, &events[i].1, &weights);
        let ghost key = weight_key_of(events@[i as int].0@, events@[i as int].1@);
        assert(total_for(next, key.0, key.1) == current + amount);
        if current > u32::MAX - amount {
            proof {
                lemma_total_prefix(all, i + 1, key.0, key.1);
            }
            return None;
        }
        add_tag_weight(&mut weights, &events[i].0, &events[i].1, amount);
        proof {
            assert forall|a: Seq<char>, b: Seq<char>| #[trigger] weight_at(weights.entries@, a, b) == total_for(next, a, b) by {
                assert(next.drop_last() =~= done);
            }
        }
    }
    assert(all.take(all.len() as int) =~= all);
    proof {
        assert forall|a: Seq<char>, b: Seq<char>| #[trigger] total_for(all, a, b) <= u32::MAX by {
            lemma_weight_at_fits(weights, a, b);
        }
    }
    Some(weights)
}


/// One use of a tag: its key, its name as written and the note that carries it.
pub type TagUse = (Seq<char>, Seq<char>, Seq<char>);

/// The tag entries of the note with the identity (the last such note).
pub open spec fn entries_for(notes: Seq<NoteRecord>, note_tags: Seq<Vec<TagEntry>>, id: Seq<char>) -> Seq<(Seq<char>, Seq<char>)> {
    match last_index(notes, id) {
        Some(j) => entry_views(note_tags[j]@),
        None => Seq::empty(),
    }
}

/// The tag uses of the first `n` notes, note by note, entry by entry.
pub open spec fn tag_uses(notes: Seq<NoteRecord>, note_tags: Seq<Vec<TagEntry>>, n: int) -> Seq<TagUse>
    decreases n,
{
    if n <= 0 {
        Seq::empty()
    } else {
        let id = notes[n - 1].id@;
        tag_uses(notes, note_tags, n - 1) + entries_for(notes, note_tags, id).map_values(
            |e: (Seq<char>, Seq<char>)| (e.0, e.1, id),
        )
    }
}

/// The keys of the uses without repeats, in the order first seen.
pub open spec fn use_keys(uses: Seq<TagUse>) -> Seq<Seq<char>>
    decreases uses.len(),
{
    if uses.len() == 0 {
        Seq::empty()
    } else {
        let before = use_keys(uses.drop_last());
        if before.contains(uses.last().0) {
            before
        } else {
            before.push(uses.last().0)
        }
    }
}

/// The notes that carry the key, once per use, in order.
pub open spec fn members_of(uses: Seq<TagUse>, key: Seq<char>) -> Seq<Seq<char>>
    decreases uses.len(),
{
    if uses.len() == 0 {
        Seq::empty()
    } else if uses.last().0 == key {
        members_of(uses.drop_last(), key).push(uses.last().2)
    } else {
        members_of(uses.drop_last(), key)
    }
}

/// `a` orders strictly before `b` as strings do.
pub open spec fn text_lt(a: Seq<char>, b: Seq<char>) -> bool {
    text_le(a, b) && !text_le(b, a)
}

/// The name a cluster is shown by: among the names written for its key, the first whose
/// lower-cased form no later name undercuts.
pub open spec fn name_of(uses: Seq<TagUse>, key: Seq<char>) -> Option<Seq<char>>
    decreases uses.len(),
{
    if uses.len() == 0 {
        None
    } else {
        let before = name_of(uses.drop_last(), key);
        let u = uses.last();
        if u.0 != key {
            before
        } else {
            match before {
                None => Some(u.1),
                Some(c) => if text_lt(lowercase(u.1), lowercase(c)) {
                    Some(u.1)
                } else {
                    Some(c)
                },
            }
        }
    }
}

/// A tag cluster: its key and the notes that carry the tag.
pub struct Cluster {
    pub key: String,
    pub members: Vec<NoteId>,
}

impl Keyed for Cluster {
    open spec fn sort_key(&self) -> Seq<u64> {
        encode_text(self.key@)
    }

    fn sort_key_exec(&self) -> (key: Vec<u64>) {
        encode_chars(&chars_of(self.key.as_str()))
    }
}

/// Every tag use of the notes, in order.
fn collect_uses(notes: &Vec<NoteRecord>, note_tags: &Vec<Vec<TagEntry>>) -> (uses: Vec<(String, String, NoteId)>)
    requires
        note_tags@.len() == notes@.len(),
    ensures
        uses@.map_values(|u: (String, String, NoteId)| (u.0@, u.1@, u.2@)) == tag_uses(notes@, note_tags@, notes@.len() as int),
{
    let mut uses: Vec<(String, String, NoteId)> = Vec::new();
    for j in 0..notes.len()
        invariant
            note_tags@.len() == notes@.len(),
            uses@.map_values(|u: (String, String, NoteId)| (u.0@, u.1@, u.2@)) == tag_uses(notes@, note_tags@, j as int),
    {
        let id = &notes[j].id;
        let mut k = notes.len();
        assert(notes@.take(notes@.len() as int) =~= notes@);
        proof {
            lemma_last_index_found(notes@, j as int);
        }
        loop
            invariant
                k <= notes@.len(),
                j < notes@.len(),
                id@ == notes@[j as int].id@,
                last_index(notes@, id@) is Some,
                last_index(notes@, id@) == last_index(notes@.take(k as int), id@),
            ensures
                0 < k <= notes@.len(),
                last_index(notes@, id@) == Some(k - 1),
            decreases k,
        {
            if k == 0 {
                assert(notes@.take(0) =~= Seq::<NoteRecord>::empty());
                assert(false);
                break;
            }
            assert(notes@.take(k as int).drop_last() =~= notes@.take(k - 1));
            if notes[k - 1].id.same(id) {
                assert(notes@.take(k as int).last() == notes@[k - 1]);
                break;
            }
            k -= 1;
        }
        let entries = &note_tags[k - 1];
        let ghost before = uses@.map_values(|u: (String, String, NoteId)| (u.0@, u.1@, u.2@));
        let ghost added = entries_for(notes@, note_tags@, id@).map_values(
            |e: (Seq<char>, Seq<char>)| (e.0, e.1, id@),
        );
        for t in 0..entries.len()
            invariant
                uses@.map_values(|u: (String, String, NoteId)| (u.0@, u.1@, u.2@)) == before + added.take(t as int),
                added == entry_views(entries@).map_values(|e: (Seq<char>, Seq<char>)| (e.0, e.1, id@)),
        {
            let ghost prev = uses@;
            let item = (entries[t].key.clone(), entries[t].name.clone(), id.duplicate());
            uses.push(item);
            assert(uses@ == prev.push(item));
            assert(prev.push(item).map_values(|u: (String, String, NoteId)| (u.0@, u.1@, u.2@)) =~= prev.map_values(
                |u: (String, String, NoteId)| (u.0@, u.1@, u.2@),
            ).push((item.0@, item.1@, item.2@)));
            assert(added[t as int] == (entries@[t as int].key@, entries@[t as int].name@, id@));
            assert(added.take(t + 1) =~= added.take(t as int).push(added[t as int]));
            assert(uses@.map_values(|u: (String, String, NoteId)| (u.0@, u.1@, u.2@)) =~= before + added.take(t + 1));
        }
        assert(added.take(entries@.len() as int) =~= added);
    }
    uses
}

proof fn lemma_last_index_found(notes: Seq<NoteRecord>, j: int)
    requires
        0 <= j < notes.len(),
    ensures
        last_index(notes, notes[j].id@) matches Some(k) && j <= k < notes.len() && notes[k].id@ == notes[j].id@,
    decreases notes.len(),
{
    if notes.last().id@ != notes[j].id@ {
        lemma_last_index_found(notes.drop_last(), j);
    }
}

/// The clusters of the notes' tags, ordered by key, each with the notes that carry its tag in
/// note order.
pub fn cluster_members(notes: &Vec<NoteRecord>, note_tags: &Vec<Vec<TagEntry>>) -> (clusters: Vec<Cluster>)
    requires
        note_tags@.len() == notes@.len(),
    ensures
        exists|found: Seq<Cluster>|
            #[trigger] stably_sorted(found, clusters@) && found.len() == use_keys(
                tag_uses(notes@, note_tags@, notes@.len() as int),
            ).len() && forall|i: int|
                0 <= i < found.len() ==> (#[trigger] found[i]).key@ == use_keys(
                    tag_uses(notes@, note_tags@, notes@.len() as int),
                )[i] && ids(found[i].members@) == members_of(
                    tag_uses(notes@, note_tags@, notes@.len() as int),
                    found[i].key@,
                ),
{
    let uses = collect_uses(notes, note_tags);
    let ghost uv = uses@.map_values(|u: (String, String, NoteId)| (u.0@, u.1@, u.2@));
    let mut keys: Vec<String> = Vec::new();
    for i in 0..uses.len()
        invariant
            uv == uses@.map_values(|u: (String, String, NoteId)| (u.0@, u.1@, u.2@)),
            texts(keys@) == use_keys(uv.take(i as int)),
    {
        assert(uv.take(i + 1).drop_last() =~= uv.take(i as int));
        assert(uv.take(i + 1).last() == uv[i as int]);
        let mut seen = false;
        let ghost kv = texts(keys@);
        for k in 0..keys.len()
            invariant
                kv == texts(keys@),
                i < uses@.len(),
                seen == kv.take(k as int).contains(uses@[i as int].0@),
        {
            proof {
                super::lemma_take_next_contains(kv, k as int, uses@[i as int].0@);
            }
            assert(kv[k as int] == keys@[k as int]@);
            if same_text(&keys[k], &uses[i].0) {
                seen = true;
            }
        }
        assert(kv.take(kv.len() as int) =~= kv);
        if !seen {
            let ghost before = keys@;
            let key = uses[i].0.clone();
            keys.push(key);
            proof {
                crate::text::lemma_texts_push(before, key);
            }
        }
    }
    assert(uv.take(uv.len() as int) =~= uv);
    let ghost kv = texts(keys@);
    let mut found: Vec<Cluster> = Vec::new();
    for k in 0..keys.len()
        invariant
            uv == uses@.map_values(|u: (String, String, NoteId)| (u.0@, u.1@, u.2@)),
            kv == texts(keys@),
            found@.len() == k,
            forall|i: int|
                0 <= i < k ==> (#[trigger] found@[i]).key@ == kv[i] && ids(found@[i].members@) == members_of(uv, kv[i]),
    {
        let mut members: Vec<NoteId> = Vec::new();
        for i in 0..uses.len()
            invariant
                uv == uses@.map_values(|u: (String, String, NoteId)| (u.0@, u.1@, u.2@)),
                k < keys@.len(),
                ids(members@) == members_of(uv.take(i as int), keys@[k as int]@),
        {
            assert(uv.take(i + 1).drop_last() =~= uv.take(i as int));
            assert(uv.take(i + 1).last() == uv[i as int]);
            if same_text(&uses[i].0, &keys[k]) {
                let ghost before = members@;
                let d = uses[i].2.duplicate();
                members.push(d);
                assert(ids(members@) =~= ids(before).push(d@));
            }
        }
        assert(uv.take(uv.len() as int) =~= uv);
        found.push(Cluster { key: keys[k].clone(), members });
    }
    let ghost unsorted = found@;
    let sorted = stable_sort(found);
    assert(stably_sorted(unsorted, sorted@));
    sorted
}

/// Whether `a` orders strictly before `b` as strings do.
fn text_lt_exec(a: &String, b: &String) -> (r: bool)
    ensures
        r == text_lt(a@, b@),
{
    text_le_exec(a, b) && !text_le_exec(b, a)
}

/// The name each cluster is shown by, ordered by key.
pub fn cluster_names(notes: &Vec<NoteRecord>, note_tags: &Vec<Vec<TagEntry>>) -> (names: Vec<TagEntry>)
    requires
        note_tags@.len() == notes@.len(),
    ensures
        exists|found: Seq<TagEntry>|
            #[trigger] stably_sorted(found, names@) && found.len() == use_keys(
                tag_uses(notes@, note_tags@, notes@.len() as int),
            ).len() && forall|i: int|
                0 <= i < found.len() ==> (#[trigger] found[i]).key@ == use_keys(
                    tag_uses(notes@, note_tags@, notes@.len() as int),
                )[i] && name_of(tag_uses(notes@, note_tags@, notes@.len() as int), found[i].key@) == Some(
                    found[i].name@,
                ),
{
    let clusters = cluster_members(notes, note_tags);
    let uses = collect_uses(notes, note_tags);
    let ghost uv = uses@.map_values(|u: (String, String, NoteId)| (u.0@, u.1@, u.2@));
    let mut keys: Vec<String> = Vec::new();
    for i in 0..uses.len()
        invariant
            uv == uses@.map_values(|u: (String, String, NoteId)| (u.0@, u.1@, u.2@)),
            texts(keys@) == use_keys(uv.take(i as int)),
            forall|k: int| 0 <= k < keys@.len() ==> name_of(uv.take(i as int), (#[trigger] keys@[k])@) is Some,
    {
        assert(uv.take(i + 1).drop_last() =~= uv.take(i as int));
        assert(uv.take(i + 1).last() == uv[i as int]);
        let mut seen = false;
        let ghost kv = texts(keys@);
        for k in 0..keys.len()
            invariant
                kv == texts(keys@),
                i < uses@.len(),
                seen == kv.take(k as int).contains(uses@[i as int].0@),
        {
            proof {
                super::lemma_take_next_contains(kv, k as int, uses@[i as int].0@);
            }
            assert(kv[k as int] == keys@[k as int]@);
            if same_text(&keys[k], &uses[i].0) {
                seen = true;
            }
        }
        assert(kv.take(kv.len() as int) =~= kv);
        if !seen {
            let ghost before = keys@;
            let key = uses[i].0.clone();
            keys.push(key);
            proof {
                crate::text::lemma_texts_push(before, key);
            }
        }
        assert forall|k: int| 0 <= k < keys@.len() implies name_of(uv.take(i + 1), (#[trigger] keys@[k])@) is Some by {
            if uv[i as int].0 != keys@[k]@ {
                assert(name_of(uv.take(i as int), keys@[k]@) is Some);
            }
        }
    }
    assert(uv.take(uv.len() as int) =~= uv);
    let ghost kv = texts(keys@);
    let mut found: Vec<TagEntry> = Vec::new();
    for k in 0..keys.len()
        invariant
            uv == uses@.map_values(|u: (String, String, NoteId)| (u.0@, u.1@, u.2@)),
            kv == texts(keys@),
            kv == use_keys(uv),
            forall|j: int| 0 <= j < keys@.len() ==> name_of(uv, (#[trigger] keys@[j])@) is Some,
            found@.len() == k,
            forall|i: int|
                0 <= i < k ==> (#[trigger] found@[i]).key@ == kv[i] && name_of(uv, kv[i]) == Some(found@[i].name@),
    {
        let mut current: Option<String> = None;
        for i in 0..uses.len()
            invariant
                uv == uses@.map_values(|u: (String, String, NoteId)| (u.0@, u.1@, u.2@)),
                k < keys@.len(),
                match current {
                    Some(c) => name_of(uv.take(i as int), keys@[k as int]@) == Some(c@),
                    None => name_of(uv.take(i as int), keys@[k as int]@) is None,
                },
        {
            assert(uv.take(i + 1).drop_last() =~= uv.take(i as int));
            assert(uv.take(i + 1).last() == uv[i as int]);
            if same_text(&uses[i].0, &keys[k]) {
                let name = &uses[i].1;
                current = match current {
                    None => Some(name.clone()),
                    Some(c) => {
                        let lower_name = string_of(lowercase_of(name.as_str()).as_slice());
                        let lower_current = string_of(lowercase_of(c.as_str()).as_slice());
                        if text_lt_exec(&lower_name, &lower_current) {
                            Some(name.clone())
                        } else {
                            Some(c)
                        }
                    },
                };
            }
        }
        assert(uv.take(uv.len() as int) =~= uv);
        let name = match current {
            Some(c) => c,
            None => {
                assert(name_of(uv, kv[k as int]) is Some);
                String::new()
            },
        };
        found.push(TagEntry { key: keys[k].clone(), name });
    }
    let ghost unsorted = found@;
    let sorted = stable_sort(found);
    assert(stably_sorted(unsorted, sorted@));
    sorted
}


/// How strongly a cluster draws to be placed next: its weight to the clusters already placed,
/// then its size, then its total weight, then (reversed) its key.
pub open spec fn affinity_ge(
    a: Cluster,
    b: Cluster,
    placed: Seq<Seq<char>>,
    weights: TagWeights,
) -> bool {
    let (pa, pb) = (placed_sum(a.key@, placed, weights), placed_sum(b.key@, placed, weights));
    let (ca, cb) = (a.members@.len(), b.members@.len());
    let (da, db) = (degree_of(weights.entries@, a.key@), degree_of(weights.entries@, b.key@));
    ||| pa > pb
    ||| pa == pb && ca > cb
    ||| pa == pb && ca == cb && da > db
    ||| pa == pb && ca == cb && da == db && text_le(a.key@, b.key@)
}

/// The cluster at `m` is the last among those not yet placed with the greatest affinity.
pub open spec fn is_next_by_affinity(clusters: Seq<Cluster>, placed: Seq<Seq<char>>, weights: TagWeights, m: int) -> bool {
    &&& 0 <= m < clusters.len()
    &&& !placed.contains(clusters[m].key@)
    &&& forall|i: int|
        0 <= i < clusters.len() && !placed.contains((#[trigger] clusters[i]).key@) ==> affinity_ge(
            clusters[m],
            clusters[i],
            placed,
            weights,
        )
    &&& forall|i: int|
        m < i < clusters.len() && !placed.contains((#[trigger] clusters[i]).key@) ==> !affinity_ge(
            clusters[i],
            clusters[m],
            placed,
            weights,
        )
}

/// The sums a cluster's affinity needs fit the weights' number type.
pub open spec fn affinity_fits(clusters: Seq<Cluster>, placed: Seq<Seq<char>>, weights: TagWeights) -> bool {
    forall|i: int|
        0 <= i < clusters.len() ==> placed_sum((#[trigger] clusters[i]).key@, placed, weights) <= u32::MAX
            && degree_of(weights.entries@, clusters[i].key@) <= u32::MAX
}

fn affinity_ge_exec(a: &Cluster, b: &Cluster, placed: &Vec<String>, weights: &TagWeights) -> (r: bool)
    requires
        weights.wf(),
        placed_sum(a.key@, texts(placed@), *weights) <= u32::MAX,
        placed_sum(b.key@, texts(placed@), *weights) <= u32::MAX,
        degree_of(weights.entries@, a.key@) <= u32::MAX,
        degree_of(weights.entries@, b.key@) <= u32::MAX,
    ensures
        r == affinity_ge(*a, *b, texts(placed@), *weights),
{
    let pa = placed_weight(&a.key, placed, weights);
    let pb = placed_weight(&b.key, placed, weights);
    let ca = a.members.len();
    let cb = b.members.len();
    let da = weighted_degree(&a.key, weights);
    let db = weighted_degree(&b.key, weights);
    pa > pb || (pa == pb && ca > cb) || (pa == pb && ca == cb && da > db) || (pa == pb && ca == cb
        && da == db && text_le_exec(&a.key, &b.key))
}

proof fn lemma_affinity_total(a: Cluster, b: Cluster, placed: Seq<Seq<char>>, weights: TagWeights)
    ensures
        affinity_ge(a, b, placed, weights) || affinity_ge(b, a, placed, weights),
{
    crate::sort::lemma_seq_key_total(encode_text(a.key@), encode_text(b.key@));
}

proof fn lemma_affinity_transitive(a: Cluster, b: Cluster, c: Cluster, placed: Seq<Seq<char>>, weights: TagWeights)
    requires
        affinity_ge(a, b, placed, weights),
        affinity_ge(b, c, placed, weights),
    ensures
        affinity_ge(a, c, placed, weights),
{
    if text_le(a.key@, b.key@) && text_le(b.key@, c.key@) {
        crate::sort::lemma_seq_key_transitive(encode_text(a.key@), encode_text(b.key@), encode_text(c.key@));
    }
}

/// The cluster to place next: among those whose key is not placed, the last with the
/// greatest affinity.
pub fn next_tag_by_affinity(clusters: &Vec<Cluster>, placed: &Vec<String>, weights: &TagWeights) -> (next: Option<String>)
    requires
        weights.wf(),
        affinity_fits(clusters@, texts(placed@), *weights),
    ensures
        match next {
            Some(k) => exists|m: int| #[trigger] is_next_by_affinity(clusters@, texts(placed@), *weights, m) && clusters@[m].key@ == k@,
            None => forall|i: int| 0 <= i < clusters@.len() ==> texts(placed@).contains((#[trigger] clusters@[i]).key@),
        },
{
    let ghost pv = texts(placed@);
    let mut best: Option<usize> = None;
    for i in 0..clusters.len()
        invariant
            pv == texts(placed@),
            weights.wf(),
            affinity_fits(clusters@, pv, *weights),
            match best {
                Some(m) => {
                    &&& m < i
                    &&& !pv.contains(clusters@[m as int].key@)
                    &&& forall|k: int|
                        0 <= k < i && !pv.contains((#[trigger] clusters@[k]).key@) ==> affinity_ge(
                            clusters@[m as int],
                            clusters@[k],
                            pv,
                            *weights,
                        )
                    &&& forall|k: int|
                        m < k < i && !pv.contains((#[trigger] clusters@[k]).key@) ==> !affinity_ge(
                            clusters@[k],
                            clusters@[m as int],
                            pv,
                            *weights,
                        )
                },
                None => forall|k: int| 0 <= k < i ==> pv.contains((#[trigger] clusters@[k]).key@),
            },
    {
        let mut is_placed = false;
        for p in 0..placed.len()
            invariant
                pv == texts(placed@),
                i < clusters@.len(),
                is_placed == pv.take(p as int).contains(clusters@[i as int].key@),
        {
            proof {
                super::lemma_take_next_contains(pv, p as int, clusters@[i as int].key@);
            }
            assert(pv[p as int] == placed@[p as int]@);
            if same_text(&placed[p], &clusters[i].key) {
                is_placed = true;
            }
        }
        assert(pv.take(pv.len() as int) =~= pv);
        if !is_placed {
            let take = match best {
                None => true,
                Some(m) => affinity_ge_exec(&clusters[i], &clusters[m], placed, weights),
            };
            if take {
                proof {
                    if let Some(m) = best {
                        assert forall|k: int| 0 <= k < i + 1 && !pv.contains((#[trigger] clusters@[k]).key@) implies affinity_ge(
                            clusters@[i as int],
                            clusters@[k],
                            pv,
                            *weights,
                        ) by {
                            if k < i {
                                lemma_affinity_transitive(clusters@[i as int], clusters@[m as int], clusters@[k], pv, *weights);
                            } else {
                                lemma_affinity_total(clusters@[i as int], clusters@[i as int], pv, *weights);
                            }
                        }
                    } else {
                        lemma_affinity_total(clusters@[i as int], clusters@[i as int], pv, *weights);
                    }
                }
                best = Some(i);
            } else {
                proof {
                    if let Some(m) = best {
                        lemma_affinity_total(clusters@[i as int], clusters@[m as int], pv, *weights);
                    }
                }
            }
        }
    }
    match best {
        None => None,
        Some(m) => {
            assert(is_next_by_affinity(clusters@, pv, *weights, m as int));
            Some(clusters[m].key.clone())
        },
    }
}


/// The cluster placed next draws at least as strongly on the placed clusters as any other
/// unplaced one; among those drawing equally, it has at least as many members as any; and
/// among those drawing equally with as many members, at least as much total weight.
pub proof fn law_next_cluster_draws_most_then_is_largest(
    clusters: Seq<Cluster>,
    placed: Seq<Seq<char>>,
    weights: TagWeights,
    m: int,
    i: int,
)
    requires
        is_next_by_affinity(clusters, placed, weights, m),
        0 <= i < clusters.len(),
        !placed.contains(clusters[i].key@),
    ensures
        placed_sum(clusters[m].key@, placed, weights) >= placed_sum(clusters[i].key@, placed, weights),
        placed_sum(clusters[m].key@, placed, weights) == placed_sum(clusters[i].key@, placed, weights)
            ==> clusters[m].members@.len() >= clusters[i].members@.len(),
        placed_sum(clusters[m].key@, placed, weights) == placed_sum(clusters[i].key@, placed, weights)
            && clusters[m].members@.len() == clusters[i].members@.len() ==> degree_of(
            weights.entries@,
            clusters[m].key@,
        ) >= degree_of(weights.entries@, clusters[i].key@),
{
    assert(affinity_ge(clusters[m], clusters[i], placed, weights));
}

} // verus!
