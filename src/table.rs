use vstd::prelude::*;

use crate::record::TaskInfo;

verus! {

broadcast use vstd::seq_lib::group_to_multiset_ensures;

/// The error number that the kernel table reports for a missing key.
pub const ENOENT: i32 = 2;

/// The error number for a permission refused.
pub const EACCES: i32 = 13;

/// The error number for an operation not permitted.
pub const EPERM: i32 = 1;

/// Why the table could not be opened or read.
#[derive(Debug, Clone, Copy, PartialEq, Eq, Structural)]
pub enum AccessError {
    /// No table at the path.
    NotFound,
    /// The table exists but this process may not open it.
    PermissionDenied,
    /// The path cannot name a table (it holds a NUL byte).
    InvalidPath,
    /// Enumerating or reading the table failed with this error number.
    Io(i32),
}

/// The error that an open which failed with `errno` reports.
pub open spec fn open_error(errno: i32) -> AccessError {
    if errno == ENOENT {
        AccessError::NotFound
    } else if errno == EACCES || errno == EPERM {
        AccessError::PermissionDenied
    } else {
        AccessError::Io(errno)
    }
}

pub fn classify_open_error(errno: i32) -> (r: AccessError)
    ensures
        r == open_error(errno),
{
    if errno == ENOENT {
        AccessError::NotFound
    } else if errno == EACCES || errno == EPERM {
        AccessError::PermissionDenied
    } else {
        AccessError::Io(errno)
    }
}

/// What a request for the key after the cursor gave.
#[derive(Debug, Clone, Copy, PartialEq, Eq, Structural)]
pub enum NextKey {
    Key(u32),
    /// The cursor was on the last key.
    End,
    Failed(i32),
}

/// What a lookup of one key gave.
#[derive(Debug, Clone, Copy, PartialEq, Eq, Structural)]
pub enum Lookup {
    Found(TaskInfo),
    /// The key left the table between enumeration and lookup.
    Vanished,
    Failed(i32),
}

/// What the reader is to do after a next-key request.
#[derive(Debug, Clone, Copy, PartialEq, Eq, Structural)]
pub enum ScanStep {
    /// Look the key up, then ask for the key after it.
    LookUp(u32),
    /// The enumeration is complete.
    Done,
    /// Stop with this error.
    Fatal(AccessError),
}

/// The outcome of a next-key request that returned `ret` with `errno` set,
/// having written `key`: a missing key past the cursor ends the table.
pub fn next_key_outcome(ret: i32, errno: i32, key: u32) -> (r: NextKey)
    ensures
        ret >= 0 ==> r == NextKey::Key(key),
        ret < 0 && errno == ENOENT ==> r == NextKey::End,
        ret < 0 && errno != ENOENT ==> r == NextKey::Failed(errno),
{
    if ret >= 0 {
        NextKey::Key(key)
    } else if errno == ENOENT {
        NextKey::End
    } else {
        NextKey::Failed(errno)
    }
}

/// The outcome of a lookup that returned `ret` with `errno` set, having
/// filled `value`: a missing key is a key that vanished meanwhile.
pub fn lookup_outcome(ret: i32, errno: i32, value: TaskInfo) -> (r: Lookup)
    ensures
        ret >= 0 ==> r == Lookup::Found(value),
        ret < 0 && errno == ENOENT ==> r == Lookup::Vanished,
        ret < 0 && errno != ENOENT ==> r == Lookup::Failed(errno),
{
    if ret >= 0 {
        Lookup::Found(value)
    } else if errno == ENOENT {
        Lookup::Vanished
    } else {
        Lookup::Failed(errno)
    }
}

/// `s` is in non-decreasing order of task id.
pub open spec fn sorted_by_pid(s: Seq<(u32, TaskInfo)>) -> bool {
    forall|x: int, y: int| 0 <= x < y < s.len() ==> (#[trigger] s[x]).0 <= (#[trigger] s[y]).0
}

/// The entries in ascending order of task id; entries with the same id keep
/// their relative order.
pub fn sort_by_pid(entries: &[(u32, TaskInfo)]) -> (r: Vec<(u32, TaskInfo)>)
    ensures
        r@.to_multiset() == entries@.to_multiset(),
        sorted_by_pid(r@),
{
    let mut r: Vec<(u32, TaskInfo)> = Vec::new();
    let mut m: usize = 0;
    while m < entries.len()
        invariant
            m <= entries@.len(),
            r@.to_multiset() == entries@.take(m as int).to_multiset(),
            sorted_by_pid(r@),
        decreases entries@.len() - m,
    {
        let item = entries[m];
        let ghost prev = r@;
        let mut pos: usize = 0;
        while pos < r.len() && r[pos].0 <= item.0
            invariant
                r@ == prev,
                pos <= prev.len(),
                forall|k: int| 0 <= k < pos ==> (#[trigger] prev[k]).0 <= item.0,
            decreases prev.len() - pos,
        {
            pos = pos + 1;
        }
        r.insert(pos, item);
        proof {
            let p = pos as int;
            assert(r@ == prev.insert(p, item));
            vstd::seq_lib::to_multiset_insert(prev, p, item);
            assert(entries@.take(m as int + 1) == entries@.take(m as int).push(item));
            vstd::seq_lib::to_multiset_build(entries@.take(m as int), item);
            assert forall|x: int, y: int| 0 <= x < y < r@.len() implies (#[trigger] r@[x]).0 <= (#[trigger] r@[y]).0 by {
                if y < p {
                    assert(prev[x].0 <= prev[y].0);
                } else if y == p {
                    assert(prev[x].0 <= item.0);
                } else if x < p {
                    assert(prev[x].0 <= prev[y - 1].0);
                } else if x == p {
                    assert(!(prev[p].0 <= item.0));
                    assert(prev[p].0 <= prev[y - 1].0);
                } else {
                    assert(prev[x - 1].0 <= prev[y - 1].0);
                }
            }
        }
        m = m + 1;
    }
    assert(entries@.take(m as int) == entries@);
    r
}

/// A walk over the kernel table: the cursor, and the entries read so far.
pub struct TableScan {
    cursor: Option<u32>,
    entries: Vec<(u32, TaskInfo)>,
}

impl TableScan {
    /// The key from which the next request starts; `None` asks for the
    /// first key.
    pub closed spec fn cursor_spec(&self) -> Option<u32> {
        self.cursor
    }

    /// The entries read so far, in the order of reading.
    pub closed spec fn read_spec(&self) -> Seq<(u32, TaskInfo)> {
        self.entries@
    }

    pub fn new() -> (r: Self)
        ensures
            r.cursor_spec() is None,
            r.read_spec() == Seq::<(u32, TaskInfo)>::empty(),
    {
        TableScan { cursor: None, entries: Vec::new() }
    }

    pub fn cursor(&self) -> (r: Option<u32>)
        ensures
            r == self.cursor_spec(),
    {
        self.cursor
    }

    /// Takes the result of a next-key request: a key moves the cursor to it
    /// and is to be looked up; the end of the table completes the walk; any
    /// other failure is fatal.
    pub fn on_next_key(&mut self, next: NextKey) -> (r: ScanStep)
        ensures
            final(self).read_spec() == old(self).read_spec(),
            match next {
                NextKey::Key(k) => r == ScanStep::LookUp(k) && final(self).cursor_spec() == Some(k),
                NextKey::End => r == ScanStep::Done && final(self).cursor_spec() == old(self).cursor_spec(),
                NextKey::Failed(e) => r == ScanStep::Fatal(AccessError::Io(e))
                    && final(self).cursor_spec() == old(self).cursor_spec(),
            },
    {
        match next {
            NextKey::Key(k) => {
                self.cursor = Some(k);
                ScanStep::LookUp(k)
            },
            NextKey::End => ScanStep::Done,
            NextKey::Failed(e) => ScanStep::Fatal(AccessError::Io(e)),
        }
    }

    /// Takes the result of looking `key` up: a value is kept, a vanished
    /// key is dropped, any other failure is fatal.
    pub fn on_lookup(&mut self, key: u32, found: Lookup) -> (r: Result<(), AccessError>)
        ensures
            final(self).cursor_spec() == old(self).cursor_spec(),
            match found {
                Lookup::Found(v) => r is Ok && final(self).read_spec() == old(self).read_spec().push((key, v)),
                Lookup::Vanished => r is Ok && final(self).read_spec() == old(self).read_spec(),
                Lookup::Failed(e) => r == Err::<(), AccessError>(AccessError::Io(e))
                    && final(self).read_spec() == old(self).read_spec(),
            },
    {
        match found {
            Lookup::Found(v) => {
                self.entries.push((key, v));
                Ok(())
            },
            Lookup::Vanished => Ok(()),
            Lookup::Failed(e) => Err(AccessError::Io(e)),
        }
    }

    /// The entries read, in ascending order of task id.
    pub fn finish(&self) -> (r: Vec<(u32, TaskInfo)>)
        ensures
            r@.to_multiset() == self.read_spec().to_multiset(),
            sorted_by_pid(r@),
    {
        sort_by_pid(self.entries.as_slice())
    }
}

} // verus!
