use vstd::prelude::*;
use vstd::utf8::encode_utf8;

verus! {

/// The identity of a file registered in a `FileInterner`: its index there.
#[derive(Debug, Clone, Copy, PartialEq, Eq, Structural, PartialOrd, Ord, Hash)]
pub struct FileId(pub usize);

/// A registered file: its display name and its full text.
#[derive(Debug)]
pub struct FileInfo {
    pub name: String,
    pub source: String,
}

/// An append-only registry of files, keyed by name.
pub struct FileInterner {
    data: Vec<FileInfo>,
}

/// The index just past `i` where the next line feed of `t` stands, or the
/// length of `t` when none follows.
pub open spec fn next_newline(t: Seq<u8>, i: nat) -> nat
    decreases t.len() - i,
{
    if i >= t.len() {
        t.len()
    } else if t[i as int] == 10 {
        i
    } else {
        next_newline(t, i + 1)
    }
}

/// Where line `k` (0-based) of `t` begins; the length of `t` for a line past
/// the end.
pub open spec fn line_begin(t: Seq<u8>, k: nat) -> nat
    decreases k,
{
    if k == 0 {
        0
    } else {
        let e = next_newline(t, line_begin(t, (k - 1) as nat));
        if e < t.len() {
            e + 1
        } else {
            t.len()
        }
    }
}

/// Where the text of line `k` stops: before its line feed, and before a
/// carriage return that directly precedes that line feed.
pub open spec fn line_stop(t: Seq<u8>, k: nat) -> nat {
    let s = line_begin(t, k);
    let e = next_newline(t, s);
    if e < t.len() && e > s && t[e - 1] == 13 {
        (e - 1) as nat
    } else {
        e
    }
}

/// The bytes of line `k` of `t`, without its line ending; empty past the end.
pub open spec fn line_text(t: Seq<u8>, k: nat) -> Seq<u8> {
    t.subrange(line_begin(t, k) as int, line_stop(t, k) as int)
}

/// The length in bytes of line `k` of `t`.
pub open spec fn line_len(t: Seq<u8>, k: nat) -> nat {
    line_text(t, k).len()
}

pub proof fn lemma_next_newline_bounds(t: Seq<u8>, i: nat)
    ensures
        i <= t.len() ==> i <= next_newline(t, i),
        next_newline(t, i) <= t.len(),
        next_newline(t, i) < t.len() ==> t[next_newline(t, i) as int] == 10,
    decreases t.len() - i,
{
    if i < t.len() && t[i as int] != 10 {
        lemma_next_newline_bounds(t, i + 1);
    }
}

pub proof fn lemma_line_begin_bounds(t: Seq<u8>, k: nat)
    ensures
        line_begin(t, k) <= t.len(),
        line_begin(t, k) <= line_stop(t, k) <= t.len(),
    decreases k,
{
    if k > 0 {
        lemma_line_begin_bounds(t, (k - 1) as nat);
        lemma_next_newline_bounds(t, line_begin(t, (k - 1) as nat));
    }
    lemma_next_newline_bounds(t, line_begin(t, k));
}

/// The index of the first line feed of `t` at or after `from`, or its length.
fn find_newline(t: &[u8], from: usize) -> (r: usize)
    requires
        from <= t@.len(),
    ensures
        r == next_newline(t@, from as nat),
{
    let mut i = from;
    while i < t.len() && t[i] != 10
        invariant
            from <= i <= t@.len(),
            next_newline(t@, i as nat) == next_newline(t@, from as nat),
        decreases t@.len() - i,
    {
        i = i + 1;
    }
    i
}

/// The byte range of line `k` of `t`, as `line_begin` and `line_stop` give it.
pub fn line_range(t: &[u8], k: usize) -> (r: (usize, usize))
    ensures
        r.0 == line_begin(t@, k as nat),
        r.1 == line_stop(t@, k as nat),
{
    let mut s: usize = 0;
    let mut j: usize = 0;
    while j < k
        invariant
            j <= k,
            s == line_begin(t@, j as nat),
        decreases k - j,
    {
        proof {
            lemma_line_begin_bounds(t@, j as nat);
        }
        let e = find_newline(t, s);
        if e < t.len() {
            s = e + 1;
        } else {
            s = t.len();
        }
        j = j + 1;
    }
    proof {
        lemma_line_begin_bounds(t@, k as nat);
    }
    let e = find_newline(t, s);
    if e < t.len() && e > s && t[e - 1] == 13 {
        (s, e - 1)
    } else {
        (s, e)
    }
}

impl View for FileInterner {
    /// The registered files in order of registration, as (name, text) pairs.
    type V = Seq<(Seq<char>, Seq<char>)>;

    closed spec fn view(&self) -> Self::V {
        self.data@.map_values(|f: FileInfo| (f.name@, f.source@))
    }
}

/// The index of the entry named `name` in `files`, if any.
pub open spec fn index_of_name(files: Seq<(Seq<char>, Seq<char>)>, name: Seq<char>) -> Option<
    nat,
> {
    if exists|i: int| 0 <= i < files.len() && (#[trigger] files[i]).0 == name {
        Some((choose|i: int| 0 <= i < files.len() && (#[trigger] files[i]).0 == name) as nat)
    } else {
        None
    }
}

/// What interning (`name`, `source`) does to a table: an entry of that name
/// keeps its identity and text; otherwise a new entry is appended.
pub open spec fn intern_spec(
    files: Seq<(Seq<char>, Seq<char>)>,
    name: Seq<char>,
    source: Seq<char>,
) -> (Seq<(Seq<char>, Seq<char>)>, nat) {
    match index_of_name(files, name) {
        Some(i) => (files, i),
        None => (files.push((name, source)), files.len()),
    }
}

/// No two entries share a name.
pub open spec fn names_unique(files: Seq<(Seq<char>, Seq<char>)>) -> bool {
    forall|i: int, j: int|
        0 <= i < files.len() && 0 <= j < files.len() && #[trigger] files[i].0 == #[trigger] files[j].0
            ==> i == j
}

impl FileInterner {
    pub open spec fn wf(&self) -> bool {
        names_unique(self@)
    }

    pub open spec fn contains(&self, id: FileId) -> bool {
        id.0 < self@.len()
    }

    /// The UTF-8 bytes of the text of file `id`.
    pub open spec fn source_bytes(&self, id: FileId) -> Seq<u8> {
        encode_utf8(self@[id.0 as int].1)
    }

    pub fn new() -> (r: FileInterner)
        ensures
            r@ == Seq::<(Seq<char>, Seq<char>)>::empty(),
            r.wf(),
    {
        FileInterner { data: Vec::new() }
    }

    /// Registers `value` under its name, or finds the entry that already has
    /// that name; either way returns the entry's identity.
    pub fn intern(&mut self, value: FileInfo) -> (r: FileId)
        requires
            old(self).wf(),
        ensures
            final(self).wf(),
            (final(self)@, r.0 as nat) == intern_spec(old(self)@, value.name@, value.source@),
            final(self).contains(r),
            final(self)@[r.0 as int].0 == value.name@,
    {
        let mut i: usize = 0;
        while i < self.data.len()
            invariant
                i <= self.data@.len(),
                self@ == old(self)@,
                names_unique(self@),
                forall|j: int| 0 <= j < i ==> (#[trigger] self@[j]).0 != value.name@,
            decreases self.data@.len() - i,
        {
            assert(self@[i as int] == (self.data@[i as int].name@, self.data@[i as int].source@));
            if self.data[i].name == value.name {
                proof {
                    let k = choose|k: int| 0 <= k < self@.len() && (#[trigger] self@[k]).0 == value.name@;
                    assert(self@[k].0 == self@[i as int].0);
                    assert(k == i);
                }
                return FileId(i);
            }
            i = i + 1;
        }
        let ghost before = self@;
        assert(index_of_name(before, value.name@) is None);
        self.data.push(value);
        assert(self@ =~= before.push((value.name@, value.source@)));
        FileId(self.data.len() - 1)
    }

    /// The number of registered files.
    pub fn len(&self) -> (r: usize)
        ensures
            r == self@.len(),
    {
        self.data.len()
    }

    /// The entry of file `id`.
    pub fn get(&self, id: FileId) -> (r: &FileInfo)
        requires
            self.contains(id),
        ensures
            (r.name@, r.source@) == self@[id.0 as int],
    {
        &self.data[id.0]
    }

    /// The byte range in the text of file `id` of its line `k`.
    pub fn line_bounds(&self, id: FileId, k: usize) -> (r: (usize, usize))
        requires
            self.contains(id),
        ensures
            r.0 == line_begin(self.source_bytes(id), k as nat),
            r.1 == line_stop(self.source_bytes(id), k as nat),
    {
        let bytes = self.data[id.0].source.as_str().as_bytes();
        line_range(bytes, k)
    }

    /// The length in bytes of line `k` of file `id`.
    pub fn line_length(&self, id: FileId, k: usize) -> (r: usize)
        requires
            self.contains(id),
        ensures
            r == line_len(self.source_bytes(id), k as nat),
    {
        let (s, e) = self.line_bounds(id, k);
        proof {
            lemma_line_begin_bounds(self.source_bytes(id), k as nat);
        }
        e - s
    }
}

impl FileId {
    /// Registers a file named `name` with text `source` in `files` and
    /// returns its identity; a name already registered keeps its identity and
    /// its first text.
    pub fn new(files: &mut FileInterner, name: String, source: String) -> (r: FileId)
        requires
            old(files).wf(),
        ensures
            final(files).wf(),
            (final(files)@, r.0 as nat) == intern_spec(old(files)@, name@, source@),
            final(files).contains(r),
    {
        files.intern(FileInfo { name, source })
    }
}

/// Interning is keyed by name: registering a name a second time, with any
/// text, gives back the first identity and leaves the table unchanged.
pub proof fn lemma_intern_same_name(
    files: Seq<(Seq<char>, Seq<char>)>,
    name: Seq<char>,
    source1: Seq<char>,
    source2: Seq<char>,
)
    requires
        names_unique(files),
    ensures
        ({
            let (files1, id1) = intern_spec(files, name, source1);
            let (files2, id2) = intern_spec(files1, name, source2);
            &&& id1 == id2
            &&& files2 == files1
        }),
{
    let (files1, id1) = intern_spec(files, name, source1);
    assert(files1[id1 as int].0 == name);
    assert(index_of_name(files1, name) is Some);
    let k = choose|k: int| 0 <= k < files1.len() && (#[trigger] files1[k]).0 == name;
    if index_of_name(files, name) is None {
        assert(names_unique(files1));
    }
    assert(k == id1);
}

} // verus!
