use vstd::prelude::*;

verus! {

/// A node of a directory tree as it was found on disk.
pub enum FsNode {
    /// A regular file and its length in bytes.
    File { path: String, size: u64 },
    /// A directory that could be listed, with the nodes directly inside it.
    Dir { path: String, children: Vec<FsNode> },
    /// A node that could not be listed or measured; it contributes nothing.
    Unreadable { path: String },
}

/// Bytes held by a node: a file's length, or the sum over a directory's children.
pub open spec fn tree_size(n: FsNode) -> nat
    decreases n,
{
    match n {
        FsNode::File { size, .. } => size as nat,
        FsNode::Dir { children, .. } => children_size(children@),
        FsNode::Unreadable { .. } => 0,
    }
}

/// Sum of `tree_size` over a sequence of sibling nodes.
pub open spec fn children_size(s: Seq<FsNode>) -> nat
    decreases s,
{
    if s.len() == 0 {
        0
    } else {
        children_size(s.subrange(0, s.len() - 1)) + tree_size(s[s.len() - 1])
    }
}

/// How many levels below a node its deepest record lies (0 for a file or
/// an empty directory).
pub open spec fn tree_height(n: FsNode) -> nat
    decreases n,
{
    match n {
        FsNode::Dir { children, .. } => if children.len() == 0 {
            0
        } else {
            1 + children_height(children@)
        },
        _ => 0,
    }
}

/// Largest `tree_height` over a sequence of sibling nodes (0 when empty).
pub open spec fn children_height(s: Seq<FsNode>) -> nat
    decreases s,
{
    if s.len() == 0 {
        0
    } else {
        let h = tree_height(s[s.len() - 1]);
        let rest = children_height(s.subrange(0, s.len() - 1));
        if h > rest { h } else { rest }
    }
}


/// One line of the report: a path, the bytes beneath it, and its distance
/// from the root of the traversal.
pub struct PathSizeMetadata {
    pub path: String,
    pub size: u64,
    pub depth: u16,
}

/// The mathematical content of a `PathSizeMetadata`.
pub struct Record {
    pub path: Seq<char>,
    pub size: nat,
    pub depth: nat,
}

impl View for PathSizeMetadata {
    type V = Record;

    open spec fn view(&self) -> Record {
        Record { path: self.path@, size: self.size as nat, depth: self.depth as nat }
    }
}

/// The views of a sequence of records.
pub open spec fn views(s: Seq<PathSizeMetadata>) -> Seq<Record> {
    s.map_values(|r: PathSizeMetadata| r@)
}

/// Depth at which a traversal starts: `Root` is depth 0.
pub enum Depth {
    Root,
    Depth(u16),
}

impl Depth {
    pub open spec fn level(self) -> nat {
        match self {
            Depth::Root => 0,
            Depth::Depth(d) => d as nat,
        }
    }
}

/// The records a traversal of `n` at depth `d` produces, in traversal order:
/// the records of each child in turn, then the node's own record.
pub open spec fn tree_records(n: FsNode, d: nat) -> Seq<Record>
    decreases n,
{
    match n {
        FsNode::File { path, size } => seq![Record { path: path@, size: size as nat, depth: d }],
        FsNode::Dir { path, children } => children_records(children@, d + 1) + seq![
            Record { path: path@, size: children_size(children@), depth: d },
        ],
        FsNode::Unreadable { .. } => Seq::empty(),
    }
}

/// The records of a sequence of siblings, each traversed at depth `d`.
pub open spec fn children_records(s: Seq<FsNode>, d: nat) -> Seq<Record>
    decreases s,
{
    if s.len() == 0 {
        Seq::empty()
    } else {
        children_records(s.subrange(0, s.len() - 1), d) + tree_records(s[s.len() - 1], d)
    }
}

proof fn lemma_children_prefix(s: Seq<FsNode>, i: int, d: nat)
    requires
        0 <= i < s.len(),
    ensures
        children_size(s.subrange(0, i + 1)) == children_size(s.subrange(0, i)) + tree_size(s[i]),
        children_records(s.subrange(0, i + 1), d) == children_records(s.subrange(0, i), d)
            + tree_records(s[i], d),
        children_height(s.subrange(0, i + 1)) == if tree_height(s[i]) > children_height(
            s.subrange(0, i),
        ) {
            tree_height(s[i])
        } else {
            children_height(s.subrange(0, i))
        },
{
    let t = s.subrange(0, i + 1);
    assert(t.subrange(0, t.len() - 1) =~= s.subrange(0, i));
    assert(t[t.len() - 1] == s[i]);
}

proof fn lemma_children_size_prefix_bound(s: Seq<FsNode>, i: int)
    requires
        0 <= i <= s.len(),
    ensures
        children_size(s.subrange(0, i)) <= children_size(s),
        children_height(s.subrange(0, i)) <= children_height(s),
    decreases s.len() - i,
{
    if i < s.len() {
        lemma_children_prefix(s, i, 0);
        lemma_children_size_prefix_bound(s, i + 1);
    } else {
        assert(s.subrange(0, i) =~= s);
    }
}

fn walk(n: &FsNode, depth: u16, out: &mut Vec<PathSizeMetadata>) -> (total: u64)
    requires
        tree_size(*n) <= u64::MAX,
        depth + tree_height(*n) <= u16::MAX,
    ensures
        total == tree_size(*n),
        views(final(out)@) == views(old(out)@) + tree_records(*n, depth as nat),
    decreases tree_height(*n),
{
    match n {
        FsNode::File { path, size } => {
            let ghost before = views(out@);
            out.push(PathSizeMetadata { path: path.clone(), size: *size, depth });
            assert(views(out@) =~= before + tree_records(*n, depth as nat));
            *size
        },
        FsNode::Dir { path, children } => {
            let ghost before = views(out@);
            proof {
                lemma_children_size_prefix_bound(children@, children@.len() as int);
            }
            let mut total: u64 = 0;
            let mut i: usize = 0;
            while i < children.len()
                invariant
                    0 <= i <= children.len(),
                    children_size(children@) <= u64::MAX,
                    children@.len() > 0 ==> depth + 1 + children_height(children@) <= u16::MAX,
                    children@.len() > 0 ==> tree_height(*n) == 1 + children_height(children@),
                    total == children_size(children@.subrange(0, i as int)),
                    views(out@) == before + children_records(
                        children@.subrange(0, i as int),
                        depth as nat + 1,
                    ),
                decreases children.len() - i,
            {
                proof {
                    lemma_children_prefix(children@, i as int, depth as nat + 1);
                    lemma_children_size_prefix_bound(children@, i as int + 1);
                }
                let sub = walk(&children[i], depth + 1, out);
                assert(views(out@) =~= before + children_records(
                    children@.subrange(0, i as int + 1),
                    depth as nat + 1,
                ));
                total = total + sub;
                i = i + 1;
            }
            assert(children@.subrange(0, i as int) =~= children@);
            let ghost mid = views(out@);
            assert(mid == before + children_records(children@, depth as nat + 1));
            let own = PathSizeMetadata { path: path.clone(), size: total, depth };
            out.push(own);
            assert(views(out@) =~= mid.push(own@));
            assert(views(out@) =~= before + tree_records(*n, depth as nat));
            total
        },
        FsNode::Unreadable { .. } => {
            assert(views(out@) =~= views(out@) + tree_records(*n, depth as nat));
            0
        },
    }
}

/// Why a traversal was refused.
#[derive(Debug, Clone, Copy, PartialEq, Eq, Structural)]
pub enum WalkError {
    /// A directory operation was handed a file or an unreadable node.
    NotADirectory,
    /// A file operation was handed a directory or an unreadable node.
    NotAFile,
    /// A record below the directory would lie deeper than `u16::MAX`.
    TooDeep,
    /// The bytes beneath the directory do not fit in a `u64`.
    SizeOverflow,
}

/// The error a traversal of `n` from depth `d` reports, if any.
pub open spec fn walk_error(n: FsNode, d: nat) -> Option<WalkError> {
    if !(n is Dir) {
        Some(WalkError::NotADirectory)
    } else if d + tree_height(n) > u16::MAX {
        Some(WalkError::TooDeep)
    } else if tree_size(n) > u64::MAX {
        Some(WalkError::SizeOverflow)
    } else {
        None
    }
}

/// The size of `n`, or `None` where it does not fit in a `u64`.
fn checked_size(n: &FsNode) -> (r: Option<u64>)
    ensures
        match r {
            Some(v) => v == tree_size(*n),
            None => tree_size(*n) > u64::MAX,
        },
    decreases tree_height(*n),
{
    match n {
        FsNode::File { size, .. } => Some(*size),
        FsNode::Dir { children, .. } => {
            let mut total: u64 = 0;
            let mut i: usize = 0;
            while i < children.len()
                invariant
                    0 <= i <= children.len(),
                    children@.len() > 0 ==> tree_height(*n) == 1 + children_height(children@),
                    tree_size(*n) == children_size(children@),
                    total == children_size(children@.subrange(0, i as int)),
                decreases children.len() - i,
            {
                proof {
                    lemma_children_prefix(children@, i as int, 0);
                    lemma_children_size_prefix_bound(children@, i as int + 1);
                }
                match checked_size(&children[i]) {
                    Some(sub) => match total.checked_add(sub) {
                        Some(t) => {
                            total = t;
                        },
                        None => {
                            return None;
                        },
                    },
                    None => {
                        return None;
                    },
                }
                i = i + 1;
            }
            assert(children@.subrange(0, i as int) =~= children@);
            Some(total)
        },
        FsNode::Unreadable { .. } => Some(0),
    }
}

/// Whether `n` has at most `room` directory levels below it.
fn height_within(n: &FsNode, room: u16) -> (r: bool)
    ensures
        r == (tree_height(*n) <= room),
    decreases tree_height(*n),
{
    match n {
        FsNode::Dir { children, .. } => {
            if children.len() == 0 {
                return true;
            }
            if room == 0 {
                return false;
            }
            let mut i: usize = 0;
            while i < children.len()
                invariant
                    0 <= i <= children.len(),
                    room > 0,
                    children@.len() > 0,
                    tree_height(*n) == 1 + children_height(children@),
                    children_height(children@.subrange(0, i as int)) <= room - 1,
                decreases children.len() - i,
            {
                proof {
                    lemma_children_prefix(children@, i as int, 0);
                    lemma_children_size_prefix_bound(children@, i as int + 1);
                }
                if !height_within(&children[i], room - 1) {
                    return false;
                }
                i = i + 1;
            }
            assert(children@.subrange(0, i as int) =~= children@);
            true
        },
        _ => true,
    }
}

/// Walks the directory `dir_path` from `depth`, returning every record beneath
/// it followed by its own, and its aggregate size. Unreadable nodes
/// contribute nothing and produce no record.
pub fn get_dir_data(dir_path: &FsNode, depth: Depth) -> (r: Result<(Vec<PathSizeMetadata>, u64), WalkError>)
    ensures
        match r {
            Ok((records, total)) => {
                &&& walk_error(*dir_path, depth.level()) is None
                &&& total == tree_size(*dir_path)
                &&& views(records@) == tree_records(*dir_path, depth.level())
            },
            Err(e) => walk_error(*dir_path, depth.level()) == Some(e),
        },
{
    if !matches!(dir_path, FsNode::Dir { .. }) {
        return Err(WalkError::NotADirectory);
    }
    let start: u16 = match depth {
        Depth::Root => 0,
        Depth::Depth(d) => d,
    };
    if !height_within(dir_path, u16::MAX - start) {
        return Err(WalkError::TooDeep);
    }
    if checked_size(dir_path).is_none() {
        return Err(WalkError::SizeOverflow);
    }
    let mut records: Vec<PathSizeMetadata> = Vec::new();
    let total = walk(dir_path, start, &mut records);
    assert(views(records@) =~= tree_records(*dir_path, depth.level()));
    Ok((records, total))
}

/// The record of the file `file_path` at `depth`.
pub fn get_file_size(file_path: &FsNode, depth: &Depth) -> (r: Result<PathSizeMetadata, WalkError>)
    ensures
        match r {
            Ok(rec) => *file_path is File && rec@ == Record {
                path: file_path->File_path@,
                size: file_path->File_size as nat,
                depth: depth.level(),
            },
            Err(e) => !(*file_path is File) && e == WalkError::NotAFile,
        },
{
    match file_path {
        FsNode::File { path, size } => {
            let d: u16 = match depth {
                Depth::Root => 0,
                Depth::Depth(d) => *d,
            };
            Ok(PathSizeMetadata { path: path.clone(), size: *size, depth: d })
        },
        _ => Err(WalkError::NotAFile),
    }
}

/// The records of `s` whose depth is at most `max_depth`, in their order.
pub open spec fn keep_within(s: Seq<Record>, max_depth: nat) -> Seq<Record>
    decreases s.len(),
{
    if s.len() == 0 {
        Seq::empty()
    } else {
        let last = s[s.len() - 1];
        keep_within(s.subrange(0, s.len() - 1), max_depth) + if last.depth <= max_depth {
            seq![last]
        } else {
            Seq::empty()
        }
    }
}

/// Keeps the records whose depth is at most `max_depth`, in their order.
pub fn filter_depth(records: &Vec<PathSizeMetadata>, max_depth: u16) -> (r: Vec<PathSizeMetadata>)
    ensures
        views(r@) == keep_within(views(records@), max_depth as nat),
{
    let mut kept: Vec<PathSizeMetadata> = Vec::new();
    let mut i: usize = 0;
    while i < records.len()
        invariant
            0 <= i <= records.len(),
            views(kept@) == keep_within(views(records@).subrange(0, i as int), max_depth as nat),
        decreases records.len() - i,
    {
        let ghost prev = views(kept@);
        let ghost upto = views(records@).subrange(0, i as int + 1);
        assert(upto.subrange(0, upto.len() - 1) =~= views(records@).subrange(0, i as int));
        let rec = &records[i];
        if rec.depth <= max_depth {
            kept.push(PathSizeMetadata { path: rec.path.clone(), size: rec.size, depth: rec.depth });
            assert(views(kept@) =~= prev.push(records@[i as int]@));
        }
        assert(views(kept@) =~= keep_within(upto, max_depth as nat));
        i = i + 1;
    }
    assert(views(records@).subrange(0, i as int) =~= views(records@));
    kept
}

/// The records a report on `root` holds down to `max_depth`.
pub open spec fn usage_records(root: FsNode, max_depth: nat) -> Seq<Record> {
    keep_within(tree_records(root, 0), max_depth)
}

/// The error a report on `root` gives, if any.
pub open spec fn usage_error(root: FsNode) -> Option<WalkError> {
    if root is Dir {
        walk_error(root, 0)
    } else if root is File {
        None
    } else {
        Some(WalkError::NotAFile)
    }
}

/// Disk usage of `root`: a file gives its own record; a directory gives the
/// records of its traversal from depth 0 whose depth is at most `max_depth`.
pub fn get_disk_usage(root: &FsNode, max_depth: u16) -> (r: Result<Vec<PathSizeMetadata>, WalkError>)
    ensures
        match r {
            Ok(records) => {
                &&& usage_error(*root) is None
                &&& views(records@) == usage_records(*root, max_depth as nat)
            },
            Err(e) => usage_error(*root) == Some(e),
        },
{
    if matches!(root, FsNode::Dir { .. }) {
        match get_dir_data(root, Depth::Root) {
            Ok((records, _total)) => Ok(filter_depth(&records, max_depth)),
            Err(e) => Err(e),
        }
    } else {
        match get_file_size(root, &Depth::Depth(0)) {
            Ok(rec) => {
                let ghost one = seq![rec@];
                let records = vec![rec];
                assert(views(records@) =~= one);
                assert(one.subrange(0, 0) =~= Seq::<Record>::empty());
                assert(tree_records(*root, 0) == one);
                assert(keep_within(one, max_depth as nat) =~= one) by {
                    reveal_with_fuel(keep_within, 2);
                }
                Ok(records)
            },
            Err(e) => Err(e),
        }
    }
}

} // verus!
