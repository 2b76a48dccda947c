//! A cache entry bound to its file: where it lives, its header and its payload,
//! and the plan by which it is written atomically.
use crate::metadata::{header_spec, unix_time, Metadata};
use vstd::prelude::*;

verus! {

/// The rest of `s` after a leading slash, or `None` where it does not start with
/// one.
fn strip_slash(s: &str) -> (r: Option<&str>)
    ensures
        r.is_some() == (s@.len() > 0 && s@[0] == '/'),
        r matches Some(t) ==> t@ == s@.drop_first(),
{
    let n = s.unicode_len();
    if n > 0 && s.get_char(0) == '/' {
        let t = s.substring_char(1, n);
        assert(t@ =~= s@.drop_first());
        Some(t)
    } else {
        None
    }
}

/// Relies on `Path::is_dir`: whether a directory stands at `path` now. What is on
/// disk can change at any time, so nothing is stated of the result.
#[verifier::external_body]
fn path_is_dir(path: &str) -> bool {
    std::path::Path::new(path).is_dir()
}

/// `route` without one leading slash, if it has one.
pub open spec fn strip_one_slash(route: Seq<char>) -> Seq<char> {
    if route.len() > 0 && route[0] == '/' {
        route.drop_first()
    } else {
        route
    }
}

/// `rel` under the directory `root`, with a separator between the two.
pub open spec fn join_spec(root: Seq<char>, rel: Seq<char>) -> Seq<char> {
    if root.len() == 0 {
        rel
    } else {
        root + seq!['/'] + rel
    }
}

/// The position of the last slash of `p`, or -1 where it has none.
pub open spec fn last_slash(p: Seq<char>) -> int
    decreases p.len(),
{
    if p.len() == 0 {
        -1
    } else if p.last() == '/' {
        p.len() - 1
    } else {
        last_slash(p.drop_last())
    }
}

/// The directory part of `p`: what stands before its last slash, or nothing.
pub open spec fn parent_spec(p: Seq<char>) -> Seq<char> {
    if last_slash(p) < 0 {
        Seq::empty()
    } else {
        p.subrange(0, last_slash(p))
    }
}

/// The temporary file that a write of `path` goes through first.
pub open spec fn temp_path_spec(path: Seq<char>, suffix: Seq<char>) -> Seq<char> {
    path + seq!['.'] + suffix
}

/// Whether no directory stands at `path` now, so that a file may be made there.
pub fn check_valid_path(path: &str) -> (r: bool) {
    !path_is_dir(path)
}

/// The path of the cache file for `file_route` under `cache_folder`. One leading
/// slash of the route is dropped, so that the route always lands under the
/// folder; `..` segments are kept as they are.
pub fn create_file_path(cache_folder: &str, file_route: String) -> (r: String)
    ensures
        r@ == join_spec(cache_folder@, strip_one_slash(file_route@)),
{
    let rel: &str = match strip_slash(file_route.as_str()) {
        Some(t) => t,
        None => file_route.as_str(),
    };
    let mut path = cache_folder.to_owned();
    if !cache_folder.is_empty() {
        path.append("/");
        proof { reveal_strlit("/"); }
    }
    path.append(rel);
    proof {
        if cache_folder@.len() > 0 {
            assert(path@ =~= cache_folder@ + seq!['/'] + rel@);
        }
    }
    path
}

/// The directory part of `path`, before its last slash.
pub fn parent_of(path: &str) -> (r: String)
    ensures
        r@ == parent_spec(path@),
{
    let n = path.unicode_len();
    let mut i: usize = n;
    assert(path@.subrange(0, n as int) =~= path@);
    while i > 0 && path.get_char(i - 1) != '/'
        invariant
            n == path@.len(),
            i <= n,
            last_slash(path@) == last_slash(path@.subrange(0, i as int)),
        decreases i,
    {
        proof {
            let s = path@.subrange(0, i as int);
            assert(s.drop_last() =~= path@.subrange(0, i - 1));
        }
        i = i - 1;
    }
    proof {
        let s = path@.subrange(0, i as int);
        if i > 0 {
            assert(last_slash(s) == i - 1);
        } else {
            assert(s.len() == 0);
        }
    }
    if i == 0 {
        String::new()
    } else {
        path.substring_char(0, i - 1).to_owned()
    }
}

/// What to do with a file at `path` that was opened for writing, after one
/// write of the bytes from `offset` on reported `written` bytes, or failed.
pub enum WriteStep {
    /// Write again from this offset.
    Continue(usize),
    /// Every byte is written.
    Done,
    /// Give up: the write failed or made no progress.
    Abort,
}

/// The step after a write of `total` bytes, from `offset` on, that reported
/// `written` bytes, or `None` for a failure. A write that reports no progress
/// aborts rather than looping.
pub fn write_step(offset: usize, written: Option<usize>, total: usize) -> (r: WriteStep)
    requires
        offset < total,
    ensures
        match written {
            None => r is Abort,
            Some(n) => if n == 0 || n > total - offset {
                r is Abort
            } else if offset + n == total {
                r is Done
            } else {
                r == WriteStep::Continue((offset + n) as usize)
            },
        },
{
    match written {
        None => WriteStep::Abort,
        Some(n) => {
            if n == 0 || n > total - offset {
                WriteStep::Abort
            } else if offset + n == total {
                WriteStep::Done
            } else {
                WriteStep::Continue(offset + n)
            }
        },
    }
}

/// How an entry goes to disk: make `parent`, write `bytes` to `temp_path`, then
/// rename `temp_path` over `target`. Nothing but the rename touches `target`.
pub struct PersistPlan {
    pub parent: String,
    pub temp_path: String,
    pub target: String,
    pub bytes: Vec<u8>,
}

/// A cache entry: its file, its header and its payload.
#[derive(Debug)]
pub struct FileData {
    pub path: String,
    pub metadata: Metadata,
    pub content_data: Vec<u8>,
}

impl FileData {
    /// The header's length field matches the payload.
    pub open spec fn wf(&self) -> bool {
        self.metadata.content_length == self.content_data@.len()
    }

    /// A fresh entry, made at clock reading `now`, for a file at `path`. It fails
    /// where a directory stands at `path`, where the clock could not be read, or
    /// where `content_length` is not the payload's length.
    pub fn assemble(
        ttl: u64,
        content_length: u64,
        path: String,
        path_is_dir: bool,
        now: Option<u64>,
        content_data: Vec<u8>,
        content_type: Option<String>,
    ) -> (r: Result<Self, String>)
        ensures
            r.is_ok() == (!path_is_dir && now.is_some() && content_length == content_data@.len()),
            r matches Ok(f) ==> f.wf() && f.path == path && f.content_data == content_data
                && f.metadata.creation_date == now.unwrap() && f.metadata.ttl == ttl
                && f.metadata.content_type == content_type,
    {
        if path_is_dir {
            return Err("a directory stands at the cache path".to_string());
        }
        if content_length != content_data.len() as u64 {
            return Err("the content length does not match the payload".to_string());
        }
        match now {
            Some(t) => {
                let metadata = Metadata::created_at(t, ttl, content_length, content_type);
                Ok(FileData { path, metadata, content_data })
            },
            None => Err("the system clock could not be read".to_string()),
        }
    }

    /// A fresh entry, made now, for a file at `path`; see [`FileData::assemble`].
    pub fn default(
        ttl: u64,
        content_length: u64,
        path: String,
        content_data: Vec<u8>,
        content_type: Option<String>,
    ) -> (r: Result<Self, String>)
        ensures
            r matches Ok(f) ==> f.wf() && f.path == path && f.content_data == content_data
                && f.metadata.ttl == ttl && f.metadata.content_type == content_type,
            content_length != content_data@.len() ==> r.is_err(),
    {
        let is_dir = !check_valid_path(path.as_str());
        let now = unix_time();
        Self::assemble(ttl, content_length, path, is_dir, now, content_data, content_type)
    }

    /// An entry read back from disk: its header and the payload bytes that
    /// followed it. A payload shorter or longer than the header says fails.
    pub fn loaded(path: String, metadata: Metadata, content_data: Vec<u8>) -> (r: Result<Self, String>)
        ensures
            r.is_ok() == (metadata.content_length == content_data@.len()),
            r matches Ok(f) ==> f.wf() && f.path == path && f.metadata == metadata && f.content_data
                == content_data,
    {
        if metadata.content_length != content_data.len() as u64 {
            return Err("the cache file is shorter or longer than its header says".to_string());
        }
        Ok(FileData { path, metadata, content_data })
    }

    /// The header bytes: `content_type` (a content-type line) and the fixed block.
    pub fn generate_header(&self, content_type: Vec<u8>) -> (r: Vec<u8>)
        ensures
            r@ == content_type@ + crate::metadata::fixed_block_spec(
                self.metadata.creation_date,
                self.metadata.ttl,
                self.metadata.content_length,
            ),
    {
        let mut r = content_type;
        let mut b = self.metadata.fixed_block();
        r.append(&mut b);
        r
    }

    pub fn get_path(&self) -> (r: &String)
        ensures
            r == &self.path,
    {
        &self.path
    }

    pub fn get_content(&self) -> (r: &Vec<u8>)
        ensures
            r == &self.content_data,
    {
        &self.content_data
    }

    /// The content-type line of the header.
    pub fn format_content_type(&self) -> (r: Vec<u8>)
        ensures
            r@ == crate::metadata::content_type_line_spec(self.metadata@.content_type),
    {
        self.metadata.content_type_line()
    }

    /// The whole file: the header, then the payload.
    pub fn file_bytes(&self) -> (r: Vec<u8>)
        ensures
            r@ == header_spec(self.metadata@) + self.content_data@,
    {
        let line = self.format_content_type();
        let mut r = self.generate_header(line);
        let mut k: usize = 0;
        let ghost h = r@;
        while k < self.content_data.len()
            invariant
                r@ == h + self.content_data@.subrange(0, k as int),
                k <= self.content_data@.len(),
            decreases self.content_data@.len() - k,
        {
            r.push(self.content_data[k]);
            k = k + 1;
            assert(r@ =~= h + self.content_data@.subrange(0, k as int));
        }
        assert(self.content_data@.subrange(0, k as int) =~= self.content_data@);
        r
    }

    /// The plan for writing this entry through the temporary file named by
    /// `suffix`, a name without a slash (a fresh random one, so that concurrent
    /// writers do not meet). The temporary file is never the target and lies in
    /// the target's directory.
    pub fn persist_plan_with(&self, suffix: &str) -> (r: PersistPlan)
        requires
            forall|i: int| 0 <= i < suffix@.len() ==> #[trigger] suffix@[i] != '/',
        ensures
            r.target@ == self.path@,
            r.temp_path@ == temp_path_spec(self.path@, suffix@),
            r.temp_path@ != r.target@,
            parent_spec(r.temp_path@) == parent_spec(r.target@),
            r.parent@ == parent_spec(self.path@),
            r.bytes@ == header_spec(self.metadata@) + self.content_data@,
    {
        let mut temp_path = self.path.clone();
        temp_path.append(".");
        temp_path.append(suffix);
        proof {
            reveal_strlit(".");
            assert(temp_path@ =~= self.path@ + seq!['.'] + suffix@);
            lemma_temp_is_sibling(self.path@, suffix@);
        }
        PersistPlan {
            parent: parent_of(self.path.as_str()),
            temp_path,
            target: self.path.clone(),
            bytes: self.file_bytes(),
        }
    }

}

proof fn lemma_last_slash_bounds(p: Seq<char>)
    ensures
        -1 <= last_slash(p) < p.len(),
        last_slash(p) >= 0 ==> p[last_slash(p)] == '/',
    decreases p.len(),
{
    if p.len() > 0 && p.last() != '/' {
        lemma_last_slash_bounds(p.drop_last());
    }
}

/// A suffix without a slash, appended after a dot, leaves the last slash where it
/// was.
proof fn lemma_last_slash_append(p: Seq<char>, tail: Seq<char>)
    requires
        forall|i: int| 0 <= i < tail.len() ==> #[trigger] tail[i] != '/',
    ensures
        last_slash(p + tail) == last_slash(p),
    decreases tail.len(),
{
    if tail.len() > 0 {
        let q = p + tail;
        assert(q.last() == tail.last());
        assert(q.drop_last() =~= p + tail.drop_last());
        lemma_last_slash_append(p, tail.drop_last());
    } else {
        assert(p + tail =~= p);
    }
}

/// The temporary file of a write is never the target itself, and lies in the same
/// directory, so that the final rename replaces the target in one step and a
/// write cut short leaves the target as it was.
pub proof fn lemma_temp_is_sibling(path: Seq<char>, suffix: Seq<char>)
    requires
        forall|i: int| 0 <= i < suffix.len() ==> #[trigger] suffix[i] != '/',
    ensures
        temp_path_spec(path, suffix) != path,
        parent_spec(temp_path_spec(path, suffix)) == parent_spec(path),
{
    let tail = seq!['.'] + suffix;
    assert(temp_path_spec(path, suffix) =~= path + tail);
    assert(temp_path_spec(path, suffix).len() > path.len());
    assert forall|i: int| 0 <= i < tail.len() implies #[trigger] tail[i] != '/' by {
        if i > 0 {
            assert(tail[i] == suffix[i - 1]);
        }
    }
    lemma_last_slash_append(path, tail);
    lemma_last_slash_bounds(path);
    let t = path + tail;
    if last_slash(path) >= 0 {
        assert(t.subrange(0, last_slash(path)) =~= path.subrange(0, last_slash(path)));
    }
}

} // verus!
