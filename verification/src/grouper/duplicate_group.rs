use vstd::prelude::*;

use crate::cli::KeepStrategy;
use crate::scanner::FileEntry;

verus! {

/// The key by which a strategy orders files: the modification time for
/// `Oldest`/`Newest`, the path length in bytes for `ShortestPath`/`LongestPath`.
pub open spec fn strategy_key(f: FileEntry, strategy: KeepStrategy) -> int {
    match strategy {
        KeepStrategy::Oldest | KeepStrategy::Newest => f.modified as int,
        KeepStrategy::ShortestPath | KeepStrategy::LongestPath => f.path@.len() as int,
        KeepStrategy::First => 0,
    }
}

pub open spec fn strategy_keys(files: Seq<FileEntry>, strategy: KeepStrategy) -> Seq<int> {
    files.map_values(|f: FileEntry| strategy_key(f, strategy))
}

/// `i` is the first position holding the least key.
pub open spec fn is_first_min(keys: Seq<int>, i: int) -> bool {
    &&& 0 <= i < keys.len()
    &&& forall|j: int| 0 <= j < keys.len() ==> keys[i] <= #[trigger] keys[j]
    &&& forall|j: int| 0 <= j < i ==> keys[i] < #[trigger] keys[j]
}

/// `i` is the last position holding the greatest key.
pub open spec fn is_last_max(keys: Seq<int>, i: int) -> bool {
    &&& 0 <= i < keys.len()
    &&& forall|j: int| 0 <= j < keys.len() ==> #[trigger] keys[j] <= keys[i]
    &&& forall|j: int| i < j < keys.len() ==> #[trigger] keys[j] < keys[i]
}

/// `i` is the position of the file that `strategy` keeps.
pub open spec fn is_keeper_index(files: Seq<FileEntry>, strategy: KeepStrategy, i: int) -> bool {
    match strategy {
        KeepStrategy::First => i == 0 && files.len() > 0,
        KeepStrategy::Oldest | KeepStrategy::ShortestPath => is_first_min(
            strategy_keys(files, strategy),
            i,
        ),
        KeepStrategy::Newest | KeepStrategy::LongestPath => is_last_max(
            strategy_keys(files, strategy),
            i,
        ),
    }
}

/// The position of the kept file (meaningful when `files` is not empty).
pub open spec fn keeper_position(files: Seq<FileEntry>, strategy: KeepStrategy) -> int {
    choose|i: int| is_keeper_index(files, strategy, i)
}

pub open spec fn deref_entries(s: Seq<&FileEntry>) -> Seq<FileEntry> {
    s.map_values(|r: &FileEntry| *r)
}

/// Number of files beyond the first in a group of `n` files.
pub open spec fn spec_duplicate_count(n: nat) -> nat {
    if n == 0 {
        0
    } else {
        (n - 1) as nat
    }
}

/// Bytes taken by all copies but one, capped at `u64::MAX`.
pub open spec fn spec_wasted_bytes(size: u64, n: nat) -> u64 {
    if size * spec_duplicate_count(n) > u64::MAX {
        u64::MAX
    } else {
        (size * spec_duplicate_count(n)) as u64
    }
}

/// Some position is kept whenever the group is not empty.
pub proof fn lemma_keeper_exists(files: Seq<FileEntry>, strategy: KeepStrategy)
    requires
        files.len() > 0,
    ensures
        is_keeper_index(files, strategy, keeper_position(files, strategy)),
{
    let keys = strategy_keys(files, strategy);
    match strategy {
        KeepStrategy::First => {
            assert(is_keeper_index(files, strategy, 0));
        },
        KeepStrategy::Oldest | KeepStrategy::ShortestPath => {
            let i = first_min_of(keys, keys.len() as int);
            assert(keys.subrange(0, keys.len() as int) =~= keys);
            assert(is_keeper_index(files, strategy, i));
        },
        KeepStrategy::Newest | KeepStrategy::LongestPath => {
            let i = last_max_of(keys, keys.len() as int);
            assert(keys.subrange(0, keys.len() as int) =~= keys);
            assert(is_keeper_index(files, strategy, i));
        },
    }
}

/// The first least key of a non-empty prefix, as a witness.
proof fn first_min_of(keys: Seq<int>, n: int) -> (i: int)
    requires
        0 < n <= keys.len(),
    ensures
        is_first_min(keys.subrange(0, n), i),
        0 <= i < n,
    decreases n,
{
    let p = keys.subrange(0, n);
    if n == 1 {
        0
    } else {
        let i = first_min_of(keys, n - 1);
        let q = keys.subrange(0, n - 1);
        assert(forall|j: int| 0 <= j < n - 1 ==> q[j] == p[j]);
        if p[n - 1] < p[i] {
            n - 1
        } else {
            i
        }
    }
}

/// The last greatest key of a non-empty prefix, as a witness.
proof fn last_max_of(keys: Seq<int>, n: int) -> (i: int)
    requires
        0 < n <= keys.len(),
    ensures
        is_last_max(keys.subrange(0, n), i),
        0 <= i < n,
    decreases n,
{
    let p = keys.subrange(0, n);
    if n == 1 {
        0
    } else {
        let i = last_max_of(keys, n - 1);
        let q = keys.subrange(0, n - 1);
        assert(forall|j: int| 0 <= j < n - 1 ==> q[j] == p[j]);
        if p[n - 1] >= p[i] {
            n - 1
        } else {
            i
        }
    }
}

/// At most one position is kept.
pub proof fn lemma_keeper_unique(files: Seq<FileEntry>, strategy: KeepStrategy, i: int, j: int)
    requires
        is_keeper_index(files, strategy, i),
        is_keeper_index(files, strategy, j),
    ensures
        i == j,
{
    let keys = strategy_keys(files, strategy);
    if i < j {
        assert(keys[i] <= keys[j] && keys[j] <= keys[i]);
    } else if j < i {
        assert(keys[i] <= keys[j] && keys[j] <= keys[i]);
    }
}

/// A group of files with equal size (and, once hashed, equal content).
#[derive(Debug, Clone)]
pub struct DuplicateGroup {
    /// The digest shared by all files, set once whole contents were hashed.
    pub hash: Option<[u8; 32]>,
    /// The size of every file in the group.
    pub size: u64,
    pub files: Vec<FileEntry>,
}

/// In a group that is not empty, the kept file and the duplicates together
/// are the group's files: the duplicates are as many as `duplicate_count`
/// says, and adding the kept file back gives the same files with the same
/// multiplicities.
pub proof fn law_keeper_and_duplicates_partition(files: Seq<FileEntry>, strategy: KeepStrategy)
    requires
        files.len() > 0,
    ensures
        0 <= keeper_position(files, strategy) < files.len(),
        files.remove(keeper_position(files, strategy)).len() == spec_duplicate_count(files.len()),
        files.remove(keeper_position(files, strategy)).to_multiset().insert(
            files[keeper_position(files, strategy)],
        ) == files.to_multiset(),
{
    lemma_keeper_exists(files, strategy);
    let k = keeper_position(files, strategy);
    let rest = files.remove(k);
    assert(files =~= files.subrange(0, k) + seq![files[k]] + files.subrange(k + 1, files.len() as int));
    assert(rest =~= files.subrange(0, k) + files.subrange(k + 1, files.len() as int));
    vstd::seq_lib::lemma_multiset_commutative(files.subrange(0, k), seq![files[k]]);
    vstd::seq_lib::lemma_multiset_commutative(
        files.subrange(0, k) + seq![files[k]],
        files.subrange(k + 1, files.len() as int),
    );
    vstd::seq_lib::lemma_multiset_commutative(files.subrange(0, k), files.subrange(k + 1, files.len() as int));
    assert(seq![files[k]].to_multiset() =~= vstd::multiset::Multiset::empty().insert(files[k])) by {
        broadcast use vstd::seq_lib::group_to_multiset_ensures;
        assert(seq![files[k]] =~= Seq::<FileEntry>::empty().push(files[k]));
    }
    assert(rest.to_multiset().insert(files[k]) =~= files.to_multiset());
}

/// What each strategy keeps, told by the files' own fields: `First` keeps
/// the first file; `Oldest` the first file whose modification time is the
/// earliest; `Newest` the last file whose modification time is the latest;
/// `ShortestPath` the first file whose path has the fewest bytes;
/// `LongestPath` the last file whose path has the most bytes.
pub proof fn law_keeper_by_strategy(files: Seq<FileEntry>, strategy: KeepStrategy)
    requires
        files.len() > 0,
    ensures
        0 <= keeper_position(files, strategy) < files.len(),
        strategy == KeepStrategy::First ==> keeper_position(files, strategy) == 0,
        strategy == KeepStrategy::Oldest ==> {
            let k = keeper_position(files, strategy);
            &&& forall|j: int| 0 <= j < files.len() ==> files[k].modified <= (#[trigger] files[j]).modified
            &&& forall|j: int| 0 <= j < k ==> files[k].modified < (#[trigger] files[j]).modified
        },
        strategy == KeepStrategy::Newest ==> {
            let k = keeper_position(files, strategy);
            &&& forall|j: int| 0 <= j < files.len() ==> (#[trigger] files[j]).modified <= files[k].modified
            &&& forall|j: int| k < j < files.len() ==> (#[trigger] files[j]).modified < files[k].modified
        },
        strategy == KeepStrategy::ShortestPath ==> {
            let k = keeper_position(files, strategy);
            &&& forall|j: int|
                0 <= j < files.len() ==> files[k].path@.len() <= (#[trigger] files[j]).path@.len()
            &&& forall|j: int| 0 <= j < k ==> files[k].path@.len() < (#[trigger] files[j]).path@.len()
        },
        strategy == KeepStrategy::LongestPath ==> {
            let k = keeper_position(files, strategy);
            &&& forall|j: int|
                0 <= j < files.len() ==> (#[trigger] files[j]).path@.len() <= files[k].path@.len()
            &&& forall|j: int|
                k < j < files.len() ==> (#[trigger] files[j]).path@.len() < files[k].path@.len()
        },
{
    lemma_keeper_exists(files, strategy);
    let k = keeper_position(files, strategy);
    let keys = strategy_keys(files, strategy);
    assert forall|j: int| 0 <= j < files.len() implies keys[j] == strategy_key(
        #[trigger] files[j],
        strategy,
    ) by {}
}

/// The key of one entry, as an executable value.
fn keeper_key(f: &FileEntry, strategy: KeepStrategy) -> (k: i128)
    ensures
        k as int == strategy_key(*f, strategy),
{
    match strategy {
        KeepStrategy::Oldest | KeepStrategy::Newest => f.modified,
        KeepStrategy::ShortestPath | KeepStrategy::LongestPath => f.path.len() as i128,
        KeepStrategy::First => 0,
    }
}

impl DuplicateGroup {
    pub fn new(size: u64, files: Vec<FileEntry>) -> (r: Self)
        ensures
            r.hash is None,
            r.size == size,
            r.files@ == files@,
    {
        DuplicateGroup { hash: None, size, files }
    }

    pub fn with_hash(hash: [u8; 32], size: u64, files: Vec<FileEntry>) -> (r: Self)
        ensures
            r.hash == Some(hash),
            r.size == size,
            r.files@ == files@,
    {
        DuplicateGroup { hash: Some(hash), size, files }
    }

    /// Bytes that all copies but one take, saturating at `u64::MAX`.
    pub fn wasted_bytes(&self) -> (r: u64)
        ensures
            r == spec_wasted_bytes(self.size, self.files@.len()),
    {
        let n = self.duplicate_count() as u64;
        match self.size.checked_mul(n) {
            Some(v) => v,
            None => u64::MAX,
        }
    }

    /// Number of files other than the kept one.
    pub fn duplicate_count(&self) -> (r: usize)
        ensures
            r == spec_duplicate_count(self.files@.len()),
    {
        self.files.len().saturating_sub(1)
    }

    /// Position of the file that `strategy` keeps, if the group has any file.
    pub fn keeper_index(&self, strategy: KeepStrategy) -> (r: Option<usize>)
        ensures
            r is None <==> self.files@.len() == 0,
            r matches Some(i) ==> i < self.files@.len() && i == keeper_position(
                self.files@,
                strategy,
            ),
    {
        let n = self.files.len();
        if n == 0 {
            return None;
        }
        let ghost keys = strategy_keys(self.files@, strategy);
        let i = match strategy {
            KeepStrategy::First => 0,
            KeepStrategy::Oldest | KeepStrategy::ShortestPath => {
                let mut best: usize = 0;
                let mut best_key = keeper_key(&self.files[0], strategy);
                let mut j: usize = 1;
                while j < n
                    invariant
                        n == self.files@.len(),
                        keys == strategy_keys(self.files@, strategy),
                        1 <= j <= n,
                        best < j,
                        best_key as int == keys[best as int],
                        forall|k: int| 0 <= k < j ==> keys[best as int] <= #[trigger] keys[k],
                        forall|k: int| 0 <= k < best ==> keys[best as int] < #[trigger] keys[k],
                    decreases n - j,
                {
                    let k = keeper_key(&self.files[j], strategy);
                    if k < best_key {
                        best = j;
                        best_key = k;
                    }
                    j += 1;
                }
                best
            },
            KeepStrategy::Newest | KeepStrategy::LongestPath => {
                let mut best: usize = 0;
                let mut best_key = keeper_key(&self.files[0], strategy);
                let mut j: usize = 1;
                while j < n
                    invariant
                        n == self.files@.len(),
                        keys == strategy_keys(self.files@, strategy),
                        1 <= j <= n,
                        best < j,
                        best_key as int == keys[best as int],
                        forall|k: int| 0 <= k < j ==> #[trigger] keys[k] <= keys[best as int],
                        forall|k: int| best < k < j ==> #[trigger] keys[k] < keys[best as int],
                    decreases n - j,
                {
                    let k = keeper_key(&self.files[j], strategy);
                    if k >= best_key {
                        best = j;
                        best_key = k;
                    }
                    j += 1;
                }
                best
            },
        };
        proof {
            assert(is_keeper_index(self.files@, strategy, i as int));
            lemma_keeper_exists(self.files@, strategy);
            lemma_keeper_unique(
                self.files@,
                strategy,
                i as int,
                keeper_position(self.files@, strategy),
            );
        }
        Some(i)
    }

    /// The file that `strategy` keeps, if the group has any file.
    pub fn select_keeper(&self, strategy: KeepStrategy) -> (r: Option<&FileEntry>)
        ensures
            r is None <==> self.files@.len() == 0,
            r matches Some(k) ==> *k == self.files@[keeper_position(self.files@, strategy)],
            r matches Some(k) ==> (strategy == KeepStrategy::Oldest ==> forall|j: int|
                0 <= j < self.files@.len() ==> k.modified <= (#[trigger] self.files@[j]).modified),
            r matches Some(k) ==> (strategy == KeepStrategy::Newest ==> forall|j: int|
                0 <= j < self.files@.len() ==> (#[trigger] self.files@[j]).modified <= k.modified),
            r matches Some(k) ==> (strategy == KeepStrategy::ShortestPath ==> forall|j: int|
                0 <= j < self.files@.len() ==> k.path@.len() <= (#[trigger] self.files@[j]).path@.len()),
            r matches Some(k) ==> (strategy == KeepStrategy::LongestPath ==> forall|j: int|
                0 <= j < self.files@.len() ==> (#[trigger] self.files@[j]).path@.len() <= k.path@.len()),
            r matches Some(k) ==> (strategy == KeepStrategy::First ==> *k == self.files@[0]),
    {
        proof {
            if self.files@.len() > 0 {
                law_keeper_by_strategy(self.files@, strategy);
            }
        }
        match self.keeper_index(strategy) {
            Some(i) => Some(&self.files[i]),
            None => None,
        }
    }

    /// All files but the kept one, in their order in the group.
    pub fn get_duplicates(&self, strategy: KeepStrategy) -> (r: Vec<&FileEntry>)
        ensures
            self.files@.len() == 0 ==> r@.len() == 0,
            self.files@.len() > 0 ==> deref_entries(r@) == self.files@.remove(
                keeper_position(self.files@, strategy),
            ),
    {
        let keeper = match self.keeper_index(strategy) {
            Some(k) => k,
            None => return Vec::new(),
        };
        let mut out: Vec<&FileEntry> = Vec::new();
        let n = self.files.len();
        let mut j: usize = 0;
        while j < n
            invariant
                n == self.files@.len(),
                keeper < n,
                0 <= j <= n,
                deref_entries(out@) == (if j <= keeper {
                    self.files@.subrange(0, j as int)
                } else {
                    self.files@.subrange(0, keeper as int) + self.files@.subrange(
                        keeper + 1,
                        j as int,
                    )
                }),
            decreases n - j,
        {
            let ghost prev = deref_entries(out@);
            if j != keeper {
                out.push(&self.files[j]);
                proof {
                    assert(deref_entries(out@) =~= prev.push(self.files@[j as int]));
                }
            }
            proof {
                let f = self.files@;
                if j < keeper {
                    assert(f.subrange(0, j + 1) =~= f.subrange(0, j as int).push(f[j as int]));
                } else if j == keeper {
                    assert(f.subrange(0, keeper as int) + f.subrange(keeper + 1, j + 1)
                        =~= f.subrange(0, j as int));
                } else {
                    assert(f.subrange(0, keeper as int) + f.subrange(keeper + 1, j + 1)
                        =~= (f.subrange(0, keeper as int) + f.subrange(keeper + 1, j as int)).push(
                        f[j as int],
                    ));
                }
            }
            j += 1;
        }
        assert(deref_entries(out@) =~= self.files@.remove(keeper as int));
        out
    }
}

} // verus!
