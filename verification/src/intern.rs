use crate::text::string_of;
use std::collections::HashMap;
use std::sync::Arc;
use vstd::prelude::*;

verus! {

/// Another handle to the value that `shared` points to (`Arc::clone`): the
/// result is the same shared value.
#[verifier::external_body]
pub(crate) fn share<T>(shared: &Arc<T>) -> (handle: Arc<T>)
    ensures
        handle == *shared,
{
    Arc::clone(shared)
}

/// The texts of a list of handles.
pub open spec fn texts_in(entries: Seq<Arc<String>>) -> Seq<Seq<char>> {
    Seq::new(entries.len(), |i: int| entries[i]@)
}

/// Whether no text occurs twice in `pool`.
pub open spec fn distinct(pool: Seq<Seq<char>>) -> bool {
    forall|i: int, j: int| 0 <= i < j < pool.len() ==> #[trigger] pool[i] != #[trigger] pool[j]
}

/// The pool after `text` was interned: unchanged where it holds the text
/// already, and longer by that text otherwise.
pub open spec fn pool_with(pool: Seq<Seq<char>>, text: Seq<char>) -> Seq<Seq<char>> {
    if pool.contains(text) {
        pool
    } else {
        pool.push(text)
    }
}

/// The number under which the pool files a text: a hash of its characters
/// (FNV-1a over the code points).
pub open spec fn text_hash(s: Seq<char>) -> u64
    decreases s.len(),
{
    if s.len() == 0 {
        0xcbf2_9ce4_8422_2325
    } else {
        (text_hash(s.drop_last()) ^ (s.last() as u64)).wrapping_mul(0x100_0000_01b3)
    }
}

/// Computes the hash of a text (see [`text_hash`]).
pub fn hash_text(text: &Vec<char>) -> (h: u64)
    ensures
        h == text_hash(text@),
{
    let mut h: u64 = 0xcbf2_9ce4_8422_2325;
    let mut i: usize = 0;
    assert(text@.take(0) =~= Seq::<char>::empty());
    while i < text.len()
        invariant
            i <= text.len(),
            h == text_hash(text@.take(i as int)),
        decreases text.len() - i,
    {
        proof {
            let now = text@.take(i + 1);
            assert(now.drop_last() == text@.take(i as int));
            assert(now.last() == text@[i as int]);
        }
        h = (h ^ (text[i] as u64)).wrapping_mul(0x100_0000_01b3);
        i += 1;
    }
    assert(text@.take(text.len() as int) == text@);
    h
}

/// Whether the files are in order for the texts: every file holds
/// positions of texts with its hash, and every text is in the file of its
/// hash.
pub open spec fn filed(entries: Seq<Arc<String>>, files: Map<u64, Vec<usize>>) -> bool {
    &&& forall|h: u64, j: int|
        files.contains_key(h) && 0 <= j < files[h]@.len() ==> {
            let at = #[trigger] files[h]@[j];
            at < entries.len() && text_hash(entries[at as int]@) == h
        }
    &&& forall|i: int|
        0 <= i < entries.len() ==> {
            let h = text_hash(#[trigger] entries[i]@);
            files.contains_key(h) && files[h]@.contains(i as usize)
        }
}

/// The files stay in order when a new text is appended and its position is
/// added to the file of its hash.
proof fn lemma_filed_with_new_text(
    entries: Seq<Arc<String>>,
    files: Map<u64, Vec<usize>>,
    entry: Arc<String>,
    file: Vec<usize>,
)
    requires
        filed(entries, files),
        entries.len() <= usize::MAX,
        file@ == (if files.contains_key(text_hash(entry@)) {
            files[text_hash(entry@)]@
        } else {
            Seq::<usize>::empty()
        }).push(entries.len() as usize),
    ensures
        filed(entries.push(entry), files.insert(text_hash(entry@), file)),
{
    let h = text_hash(entry@);
    let at = entries.len() as usize;
    let new_entries = entries.push(entry);
    let new_files = files.insert(h, file);
    let old_file = if files.contains_key(h) {
        files[h]@
    } else {
        Seq::<usize>::empty()
    };
    assert forall|g: u64, j: int| new_files.contains_key(g) && 0 <= j < new_files[g]@.len() implies {
        let p = #[trigger] new_files[g]@[j];
        p < new_entries.len() && text_hash(new_entries[p as int]@) == g
    } by {
        if g == h {
            if j < old_file.len() {
                assert(new_files[g]@[j] == files[h]@[j]);
            }
        } else {
            let p = files[g]@[j];
            assert(p < entries.len());
        }
    }
    assert forall|i: int| 0 <= i < new_entries.len() implies {
        let g = text_hash(#[trigger] new_entries[i]@);
        new_files.contains_key(g) && new_files[g]@.contains(i as usize)
    } by {
        let g = text_hash(new_entries[i]@);
        if i == at {
            assert(new_files[h]@[old_file.len() as int] == at);
        } else {
            assert(new_entries[i] == entries[i]);
            assert(files[g]@.contains(i as usize));
            if g == h {
                let k = choose|k: int| 0 <= k < old_file.len() && old_file[k] == i as usize;
                assert(new_files[h]@[k] == i as usize);
            }
        }
    }
}

/// The texts of a pool and the files that find them.
struct Files {
    entries: Vec<Arc<String>>,
    by_hash: HashMap<u64, Vec<usize>>,
}

/// The Interning Pool: every distinct text that was interned, once, in the
/// order of first appearance. Interning hands out a shared handle, so that
/// equal texts are stored once however many records carry them.
///
/// The texts are filed by their hash, so that interning looks only at the
/// texts that share the hash of the newcomer.
pub struct InternPool {
    files: Files,
}

impl View for InternPool {
    type V = Seq<Seq<char>>;

    closed spec fn view(&self) -> Seq<Seq<char>> {
        texts_in(self.files.entries@)
    }
}

/// The position of the text among the texts at the positions of `file`, if
/// it is among them.
fn find(entries: &Vec<Arc<String>>, file: &Vec<usize>, wanted: &String) -> (found: Option<usize>)
    requires
        forall|k: int| 0 <= k < file@.len() ==> (#[trigger] file@[k]) < entries@.len(),
    ensures
        match found {
            Some(at) => at < entries@.len() && entries@[at as int]@ == wanted@,
            None => forall|k: int|
                0 <= k < file@.len() ==> entries@[(#[trigger] file@[k]) as int]@ != wanted@,
        },
{
    let mut j: usize = 0;
    while j < file.len()
        invariant
            j <= file.len(),
            forall|k: int| 0 <= k < file@.len() ==> (#[trigger] file@[k]) < entries@.len(),
            forall|k: int| 0 <= k < j ==> entries@[(#[trigger] file@[k]) as int]@ != wanted@,
        decreases file.len() - j,
    {
        let at = file[j];
        if *entries[at] == *wanted {
            return Some(at);
        }
        j += 1;
    }
    None
}

impl InternPool {
    /// What every pool keeps, whoever holds it: no text is held twice, and
    /// the files are in order.
    #[verifier::type_invariant]
    spec fn in_order(self) -> bool {
        distinct(texts_in(self.files.entries@)) && filed(self.files.entries@, self.files.by_hash@)
    }

    /// No text is held twice.
    pub open spec fn wf(&self) -> bool {
        distinct(self@)
    }

    /// Tells that the pool is well formed, as every pool is.
    pub fn is_well_formed(&self)
        ensures
            self.wf(),
    {
        proof {
            use_type_invariant(self);
        }
    }

    /// A pool without texts.
    pub fn new() -> (pool: InternPool)
        ensures
            pool@ == Seq::<Seq<char>>::empty(),
    {
        let files = Files { entries: Vec::new(), by_hash: HashMap::new() };
        assert(texts_in(files.entries@) =~= Seq::<Seq<char>>::empty());
        InternPool { files }
    }

    /// Number of distinct texts interned so far.
    pub fn len(&self) -> (n: usize)
        ensures
            n == self@.len(),
    {
        self.files.entries.len()
    }

    /// The shared handle of `text`. The pool takes the text in if it does
    /// not hold it yet.
    pub fn intern(&mut self, text: &Vec<char>) -> (handle: Arc<String>)
        ensures
            final(self)@ == pool_with(old(self)@, text@),
            handle@ == text@,
    {
        broadcast use vstd::std_specs::hash::group_hash_axioms;

        proof {
            use_type_invariant(&*self);
        }
        let wanted = string_of(text);
        let h = hash_text(text);
        let ghost before = self@;
        let ghost entries = self.files.entries@;
        let ghost files = self.files.by_hash@;
        let found = match self.files.by_hash.get(&h) {
            Some(file) => {
                assert(file == files[h]);
                assert forall|k: int| 0 <= k < file@.len() implies (#[trigger] file@[k])
                    < self.files.entries@.len() by {
                    assert(files[h]@[k] < entries.len());
                }
                find(&self.files.entries, file, &wanted)
            },
            None => None,
        };
        match found {
            Some(at) => {
                assert(before[at as int] == text@);
                share(&self.files.entries[at])
            },
            None => {
                proof {
                    if before.contains(text@) {
                        let i = choose|i: int| 0 <= i < before.len() && before[i] == text@;
                        assert(before[i] == entries[i]@);
                        assert(files.contains_key(h) && files[h]@.contains(i as usize));
                        let k = choose|k: int| 0 <= k < files[h]@.len() && files[h]@[k] == i as usize;
                        assert(entries[files[h]@[k] as int]@ != wanted@);
                    }
                }
                let handle = Arc::new(wanted);
                let kept = share(&handle);
                // The texts leave the pool while the newcomer is filed.
                let mut taken = Files { entries: Vec::new(), by_hash: HashMap::new() };
                assert(texts_in(taken.entries@) =~= Seq::<Seq<char>>::empty());
                std::mem::swap(&mut self.files, &mut taken);
                let at = taken.entries.len();
                let mut file: Vec<usize> = match taken.by_hash.remove(&h) {
                    Some(file) => file,
                    None => Vec::new(),
                };
                file.push(at);
                taken.entries.push(kept);
                taken.by_hash.insert(h, file);
                proof {
                    lemma_filed_with_new_text(entries, files, kept, file);
                    assert(taken.by_hash@ =~= files.insert(h, file));
                    assert(texts_in(taken.entries@) =~= before.push(text@));
                    assert forall|i: int, k: int|
                        0 <= i < k < texts_in(taken.entries@).len() implies #[trigger] texts_in(
                        taken.entries@,
                    )[i] != #[trigger] texts_in(taken.entries@)[k] by {
                        if k == before.len() {
                            assert(before.contains(before[i]));
                        } else {
                            assert(before[i] != before[k]);
                        }
                    }
                }
                self.files = taken;
                handle
            },
        }
    }
}

} // verus!
