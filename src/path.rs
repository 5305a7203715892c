//! Sharded relative paths for keys, as a file-backed store lays them out:
//! up to `subdirs` directories named by successive `subdir_len`-character
//! slices of the key, then the key itself as the file name.
use vstd::prelude::*;

verus! {

broadcast use vstd::string::group_string_axioms, vstd::seq::group_seq_axioms;

/// Default number of subdirectories to generate.
///
/// For example, if the text is "FSHFJKDS", generate FS/HF/JK.
pub const DEF_SUBDIRS: usize = 3;

/// Default subdirectory name length.
///
/// 2 char subdir looks like FS/HF/JK.
/// 3 char subdir looks like FSH/FJK.
pub const DEF_SUBDIR_LEN: usize = 2;

/// `s` with each path separator replaced by an underscore.
pub open spec fn sanitized(s: Seq<char>) -> Seq<char> {
    s.map_values(|c: char| if c == '/' { '_' } else { c })
}

/// Number of directories cut from a key of `n` characters.
pub open spec fn shard_count(n: nat, subdirs: nat, len: nat) -> nat {
    if len == 0 {
        0
    } else if subdirs <= n / len {
        subdirs
    } else {
        n / len
    }
}

/// The components of the path of a (sanitized) key `k`: the directories, then `k`.
pub open spec fn shard_parts(k: Seq<char>, subdirs: nat, len: nat) -> Seq<Seq<char>> {
    Seq::new(
        shard_count(k.len(), subdirs, len),
        |i: int| k.subrange(i * len, i * len + len),
    ).push(k)
}

/// Components joined with `/`.
pub open spec fn joined(parts: Seq<Seq<char>>) -> Seq<char>
    decreases parts.len(),
{
    if parts.len() == 0 {
        Seq::empty()
    } else if parts.len() == 1 {
        parts[0]
    } else {
        joined(parts.drop_last()) + seq!['/'] + parts.last()
    }
}

/// The components of a metadata path: the file name gets a `.meta` suffix.
pub open spec fn meta_parts(parts: Seq<Seq<char>>) -> Seq<Seq<char>> {
    parts.update(parts.len() - 1, parts.last() + seq!['.', 'm', 'e', 't', 'a'])
}

/// A file name that names no file: `.` or `..`.
pub open spec fn is_dot_name(s: Seq<char>) -> bool {
    s == seq!['.'] || s == seq!['.', '.']
}

/// The characters of each string.
pub open spec fn texts(v: Seq<String>) -> Seq<Seq<char>> {
    v.map_values(|s: String| s@)
}

/// Relies on String::push: appends the char to the end of the string.
#[verifier::external_body]
fn push_char(s: &mut String, c: char)
    ensures
        final(s)@ == old(s)@.push(c),
{
    s.push(c);
}

/// The characters of `s`, in order.
fn chars_of(s: &str) -> (r: Vec<char>)
    ensures
        r@ == s@,
{
    let mut r: Vec<char> = Vec::new();
    for c in it: s.chars()
        invariant
            it.seq() == s@,
            r@ == s@.take(it.index() as int),
    {
        proof {
            assert(s@.take(it.index() + 1) =~= s@.take(it.index() as int).push(c));
        }
        r.push(c);
    }
    proof {
        assert(s@.take(s@.len() as int) =~= s@);
    }
    r
}

/// A string of the characters `chars[from..to]`.
fn string_of(chars: &Vec<char>, from: usize, to: usize) -> (r: String)
    requires
        from <= to <= chars@.len(),
    ensures
        r@ == chars@.subrange(from as int, to as int),
{
    let mut r = String::new();
    let mut i: usize = from;
    while i < to
        invariant
            from <= i <= to <= chars@.len(),
            r@ == chars@.subrange(from as int, i as int),
        decreases to - i,
    {
        push_char(&mut r, chars[i]);
        proof {
            assert(chars@.subrange(from as int, i + 1) =~= chars@.subrange(from as int, i as int).push(
                chars@[i as int],
            ));
        }
        i = i + 1;
    }
    r
}

/// Replaces invalid characters in a potential file name (the path
/// separator `/`) by `_`.
pub fn replace_invalid_path_chars(key: &str) -> (r: String)
    ensures
        r@ == sanitized(key@),
{
    let mut res = String::new();
    for c in it: key.chars()
        invariant
            it.seq() == key@,
            res@ == sanitized(key@).take(it.index() as int),
    {
        let d = if c == '/' {
            '_'
        } else {
            c
        };
        push_char(&mut res, d);
        proof {
            assert(sanitized(key@).take(it.index() + 1) =~= sanitized(key@).take(
                it.index() as int,
            ).push(d));
        }
    }
    proof {
        assert(sanitized(key@).take(key@.len() as int) =~= sanitized(key@));
    }
    res
}

/// A relative path, as its components.
#[derive(Debug)]
pub struct RelPath {
    parts: Vec<String>,
}

impl View for RelPath {
    type V = Seq<Seq<char>>;

    closed spec fn view(&self) -> Seq<Seq<char>> {
        texts(self.parts@)
    }
}

impl RelPath {
    /// The components, outermost directory first.
    pub fn parts(&self) -> (r: &Vec<String>)
        ensures
            texts(r@) == self@,
    {
        &self.parts
    }

    /// The path with its components separated by `/`.
    pub fn to_path_string(&self) -> (r: String)
        ensures
            r@ == joined(self@),
    {
        let mut r = String::new();
        let mut i: usize = 0;
        while i < self.parts.len()
            invariant
                i <= self.parts@.len(),
                r@ == joined(self@.take(i as int)),
            decreases self.parts@.len() - i,
        {
            let ghost before = r@;
            if i > 0 {
                push_char(&mut r, '/');
            }
            let part = chars_of(self.parts[i].as_str());
            let mut j: usize = 0;
            let ghost mid = r@;
            while j < part.len()
                invariant
                    j <= part@.len(),
                    r@ == mid + part@.take(j as int),
                decreases part@.len() - j,
            {
                push_char(&mut r, part[j]);
                proof {
                    assert(part@.take(j + 1) =~= part@.take(j as int).push(part@[j as int]));
                }
                j = j + 1;
            }
            proof {
                let t = self@.take(i + 1);
                assert(part@.take(part@.len() as int) =~= part@);
                assert(self@[i as int] == self.parts@[i as int]@);
                assert(t.drop_last() =~= self@.take(i as int));
                assert(t.last() == self@[i as int]);
                if i == 0 {
                    assert(t.len() == 1);
                    assert(r@ =~= t[0]);
                } else {
                    assert(r@ =~= joined(t.drop_last()) + seq!['/'] + t.last());
                }
            }
            i = i + 1;
        }
        proof {
            assert(self@.take(self.parts@.len() as int) =~= self@);
        }
        r
    }

    /// A copy of this path.
    pub fn duplicate(&self) -> (r: RelPath)
        ensures
            r@ == self@,
    {
        let mut parts: Vec<String> = Vec::new();
        let mut i: usize = 0;
        while i < self.parts.len()
            invariant
                i <= self.parts@.len(),
                parts@.len() == i,
                texts(parts@) == self@.take(i as int),
            decreases self.parts@.len() - i,
        {
            let part = self.parts[i].clone();
            let ghost before = parts@;
            parts.push(part);
            proof {
                assert(part@ == self@[i as int]);
                assert forall|j: int| 0 <= j < i + 1 implies #[trigger] texts(parts@)[j] == self@.take(
                    i + 1,
                )[j] by {
                    if j < i {
                        assert(parts@[j] == before[j]);
                        assert(texts(before)[j] == self@.take(i as int)[j]);
                    }
                }
                assert(texts(parts@) =~= self@.take(i + 1));
            }
            i = i + 1;
        }
        proof {
            assert(self@.take(self.parts@.len() as int) =~= self@);
        }
        RelPath { parts }
    }
}

/// Constructs the relative path for `key`: up to `subdirs` directories named
/// by successive `subdir_len`-character slices of the key (as many whole
/// slices as the key has), then the key itself. Path separators in the key
/// become `_`. An empty key has no path.
pub fn construct(key: &str, subdirs: usize, subdir_len: usize) -> (r: Option<RelPath>)
    ensures
        key@.len() == 0 <==> r is None,
        r matches Some(p) ==> p@ == shard_parts(sanitized(key@), subdirs as nat, subdir_len as nat),
{
    let chars = chars_of(key);
    if chars.len() == 0 {
        return None;
    }
    let clean_key = replace_invalid_path_chars(key);
    let clean = chars_of(clean_key.as_str());
    let ghost k = clean@;
    let ghost n = shard_count(k.len(), subdirs as nat, subdir_len as nat);
    let mut parts: Vec<String> = Vec::new();
    if subdir_len > 0 {
        let mut offset: usize = 0;
        let mut i: usize = 0;
        while i < subdirs && subdir_len <= clean.len() - offset
            invariant
                subdir_len > 0,
                clean@ == k,
                k.len() > 0,
                n == shard_count(k.len(), subdirs as nat, subdir_len as nat),
                i <= subdirs,
                i <= n,
                offset == i * subdir_len,
                offset <= k.len(),
                parts@.len() == i,
                forall|j: int|
                    0 <= j < i ==> #[trigger] texts(parts@)[j] == k.subrange(
                        j * subdir_len,
                        j * subdir_len + subdir_len,
                    ),
            decreases subdirs - i,
        {
            let next = offset + subdir_len;
            proof {
                assert(next == (i + 1) * subdir_len) by (nonlinear_arith)
                    requires
                        next == offset + subdir_len,
                        offset == i * subdir_len,
                ;
                let m = k.len() as int;
                let l = subdir_len as int;
                let q = (i + 1) as int;
                assert(q <= m / l) by (nonlinear_arith)
                    requires
                        q * l <= m,
                        l > 0,
                ;
            }
            let ghost before = parts@;
            parts.push(string_of(&clean, offset, next));
            proof {
                assert forall|j: int| 0 <= j < i + 1 implies #[trigger] texts(parts@)[j] == k.subrange(
                    j * subdir_len,
                    j * subdir_len + subdir_len,
                ) by {
                    if j < i {
                        assert(parts@[j] == before[j]);
                        assert(texts(before)[j] == texts(parts@)[j]);
                    }
                }
            }
            offset = next;
            i = i + 1;
        }
        proof {
            if i < subdirs {
                let m = k.len() as int;
                let l = subdir_len as int;
                let q = i as int;
                assert(m / l <= q) by (nonlinear_arith)
                    requires
                        q * l + l > m,
                        l > 0,
                ;
            }
            assert(i == n);
        }
    }
    let ghost dirs = parts@;
    parts.push(clean_key);
    proof {
        let want = shard_parts(k, subdirs as nat, subdir_len as nat);
        assert(k == sanitized(key@));
        assert(dirs.len() == n);
        assert forall|j: int| 0 <= j < n + 1 implies #[trigger] texts(parts@)[j] == want[j] by {
            if j < n {
                assert(parts@[j] == dirs[j]);
                assert(texts(dirs)[j] == texts(parts@)[j]);
            }
        }
        assert(texts(parts@) =~= want);
    }
    Some(RelPath { parts })
}

/// `construct` with `DEF_SUBDIRS` directories of `DEF_SUBDIR_LEN` characters.
pub fn construct_def(key: &str) -> (r: Option<RelPath>)
    ensures
        key@.len() == 0 <==> r is None,
        r matches Some(p) ==> p@ == shard_parts(
            sanitized(key@),
            DEF_SUBDIRS as nat,
            DEF_SUBDIR_LEN as nat,
        ),
{
    construct(key, DEF_SUBDIRS, DEF_SUBDIR_LEN)
}

/// Paths of a binary blob and of its metadata.
pub struct PathGen {
    base: Option<RelPath>,
}

impl PathGen {
    pub closed spec fn base(&self) -> Option<Seq<Seq<char>>> {
        match self.base {
            Some(p) => Some(p@),
            None => None,
        }
    }

    pub fn new(key: &str, subdirs: usize, subdir_len: usize) -> (g: PathGen)
        ensures
            key@.len() == 0 ==> g.base() is None,
            key@.len() > 0 ==> g.base() == Some(
                shard_parts(sanitized(key@), subdirs as nat, subdir_len as nat),
            ),
    {
        PathGen { base: construct(key, subdirs, subdir_len) }
    }

    pub fn default(key: &str) -> (g: PathGen)
        ensures
            key@.len() == 0 ==> g.base() is None,
            key@.len() > 0 ==> g.base() == Some(
                shard_parts(sanitized(key@), DEF_SUBDIRS as nat, DEF_SUBDIR_LEN as nat),
            ),
    {
        PathGen { base: construct_def(key) }
    }

    /// Path of the binary blob.
    pub fn file_path(&self) -> (r: Option<RelPath>)
        ensures
            r is None <==> self.base() is None,
            r matches Some(p) ==> self.base() == Some(p@),
    {
        match &self.base {
            Some(p) => Some(p.duplicate()),
            None => None,
        }
    }

    /// Path of the blob's metadata: the blob's file name with `.meta`
    /// appended. None where the file name is `.` or `..`, which name no file.
    pub fn meta_path(&self) -> (r: Option<RelPath>)
        ensures
            match self.base() {
                Some(b) => if b.len() > 0 && !is_dot_name(b.last()) {
                    r matches Some(p) && p@ == meta_parts(b)
                } else {
                    r is None
                },
                None => r is None,
            },
    {
        match &self.base {
            None => None,
            Some(p) => {
                let n = p.parts.len();
                if n == 0 {
                    return None;
                }
                let name = chars_of(p.parts[n - 1].as_str());
                let dot = name.len() >= 1 && name.len() <= 2 && name[0] == '.' && (name.len() == 1
                    || name[1] == '.');
                proof {
                    assert(name@ == p@.last());
                    if name@.len() == 1 && name@[0] == '.' {
                        assert(name@ =~= seq!['.']);
                    }
                    if name@.len() == 2 && name@[0] == '.' && name@[1] == '.' {
                        assert(name@ =~= seq!['.', '.']);
                    }
                }
                if dot {
                    return None;
                }
                let mut copy = p.duplicate();
                let ghost whole = copy.parts@;
                let mut last = copy.parts.pop().unwrap();
                proof {
                    assert(whole.len() == n);
                    assert(last == whole[n - 1]);
                    assert(copy.parts@ == whole.drop_last());
                    assert(last@ == p@.last());
                }
                push_char(&mut last, '.');
                push_char(&mut last, 'm');
                push_char(&mut last, 'e');
                push_char(&mut last, 't');
                push_char(&mut last, 'a');
                copy.parts.push(last);
                proof {
                    assert(last@ =~= p@.last() + seq!['.', 'm', 'e', 't', 'a']);
                    assert forall|j: int| 0 <= j < n implies #[trigger] texts(copy.parts@)[j]
                        == meta_parts(p@)[j] by {
                        if j < n - 1 {
                            assert(copy.parts@[j] == whole[j]);
                            assert(texts(whole)[j] == p@[j]);
                        }
                    }
                    assert(texts(copy.parts@) =~= meta_parts(p@));
                }
                Some(copy)
            },
        }
    }
}

} // verus!
