//! Summary statistics of a table of contents.

use vstd::prelude::*;
use vstd::string::StringExecFns;

use crate::node::{NodeKind, NodeView};
use crate::toc::{Toc, TocView};

verus! {

/// Statistics about the contents of a table of contents.
#[derive(Debug, Clone, Copy, PartialEq, Eq, Structural)]
pub struct TocStatistics {
    /// Total number of directory entries.
    pub directory_count: usize,
    /// Total number of active file entries.
    pub file_count: usize,
    /// Total number of deleted/replaced entries.
    pub deleted_count: usize,
    /// Total compressed size of all active files.
    pub total_compressed_size: i64,
    /// Total decompressed size of all active files.
    pub total_decompressed_size: i64,
    /// Number of uncompressed files (comp_len == len).
    pub uncompressed_count: usize,
    /// Size distribution buckets.
    pub size_distribution: SizeDistribution,
}

/// File size distribution in buckets.
#[derive(Debug, Clone, Copy, PartialEq, Eq, Structural)]
pub struct SizeDistribution {
    /// Files smaller than 1 KB.
    pub under_1kb: usize,
    /// Files between 1 KB and 1 MB.
    pub kb_to_mb: usize,
    /// Files between 1 MB and 10 MB.
    pub mb_to_10mb: usize,
    /// Files larger than 10 MB.
    pub over_10mb: usize,
}

/// The number of nodes of `nodes` that satisfy `pred`.
pub open spec fn count_matching(nodes: Seq<NodeView>, pred: spec_fn(NodeView) -> bool) -> int
    decreases nodes.len(),
{
    if nodes.len() == 0 {
        0
    } else {
        count_matching(nodes.drop_last(), pred) + if pred(nodes.last()) {
            1int
        } else {
            0int
        }
    }
}

/// The sum of `f` over the nodes of `nodes`.
pub open spec fn sum_over(nodes: Seq<NodeView>, f: spec_fn(NodeView) -> int) -> int
    decreases nodes.len(),
{
    if nodes.len() == 0 {
        0
    } else {
        sum_over(nodes.drop_last(), f) + f(nodes.last())
    }
}

/// Files smaller than 1 KB.
pub open spec fn is_under_1kb(n: NodeView) -> bool {
    n.len < 1024
}

/// Files of at least 1 KB and under 1 MB.
pub open spec fn is_kb_to_mb(n: NodeView) -> bool {
    1024 <= n.len < 1024 * 1024
}

/// Files of at least 1 MB and under 10 MB.
pub open spec fn is_mb_to_10mb(n: NodeView) -> bool {
    1024 * 1024 <= n.len < 10 * 1024 * 1024
}

/// Files of 10 MB or more.
pub open spec fn is_over_10mb(n: NodeView) -> bool {
    10 * 1024 * 1024 <= n.len
}

/// Files stored without compression.
pub open spec fn is_uncompressed(n: NodeView) -> bool {
    n.comp_len == n.len
}

/// Directory nodes.
pub open spec fn is_directory(n: NodeView) -> bool {
    n.kind == NodeKind::Directory
}

/// Active files: those not replaced by a newer entry (timestamp not 0).
pub open spec fn is_active(n: NodeView) -> bool {
    n.timestamp != 0
}

/// Deleted or replaced files (timestamp 0), present when such entries
/// were resurrected.
pub open spec fn is_deleted(n: NodeView) -> bool {
    n.timestamp == 0
}

/// The compressed size of an active file, 0 for a deleted one.
pub open spec fn comp_len_of(n: NodeView) -> int {
    if is_active(n) {
        n.comp_len as int
    } else {
        0
    }
}

/// The decompressed size of an active file, 0 for a deleted one.
pub open spec fn len_of(n: NodeView) -> int {
    if is_active(n) {
        n.len as int
    } else {
        0
    }
}

/// The statistics of a table of contents: deleted files are counted apart
/// and left out of the file count, the size totals, the uncompressed count
/// and the size buckets, which cover active files only.
pub open spec fn spec_statistics(toc: TocView) -> TocStatistics {
    TocStatistics {
        directory_count: count_matching(toc.dirs, |n: NodeView| is_directory(n)) as usize,
        file_count: count_matching(toc.files, |n: NodeView| is_active(n)) as usize,
        deleted_count: count_matching(toc.files, |n: NodeView| is_deleted(n)) as usize,
        total_compressed_size: sum_over(toc.files, |n: NodeView| comp_len_of(n)) as i64,
        total_decompressed_size: sum_over(toc.files, |n: NodeView| len_of(n)) as i64,
        uncompressed_count: count_matching(
            toc.files,
            |n: NodeView| is_active(n) && is_uncompressed(n),
        ) as usize,
        size_distribution: SizeDistribution {
            under_1kb: count_matching(toc.files, |n: NodeView| is_active(n) && is_under_1kb(n))
                as usize,
            kb_to_mb: count_matching(toc.files, |n: NodeView| is_active(n) && is_kb_to_mb(n))
                as usize,
            mb_to_10mb: count_matching(toc.files, |n: NodeView| is_active(n) && is_mb_to_10mb(n))
                as usize,
            over_10mb: count_matching(toc.files, |n: NodeView| is_active(n) && is_over_10mb(n))
                as usize,
        },
    }
}

proof fn lemma_count_bounds(nodes: Seq<NodeView>, pred: spec_fn(NodeView) -> bool)
    ensures
        0 <= count_matching(nodes, pred) <= nodes.len(),
    decreases nodes.len(),
{
    if nodes.len() > 0 {
        lemma_count_bounds(nodes.drop_last(), pred);
    }
}

proof fn lemma_sum_bounds(nodes: Seq<NodeView>, f: spec_fn(NodeView) -> int, bound: int)
    requires
        bound >= 0,
        forall|n: NodeView| -bound <= #[trigger] f(n) <= bound,
    ensures
        -bound * nodes.len() <= sum_over(nodes, f) <= bound * nodes.len(),
    decreases nodes.len(),
{
    if nodes.len() > 0 {
        lemma_sum_bounds(nodes.drop_last(), f, bound);
        assert(-bound * nodes.len() == -bound * (nodes.len() - 1) - bound) by (nonlinear_arith);
        assert(bound * nodes.len() == bound * (nodes.len() - 1) + bound) by (nonlinear_arith);
    }
}

impl Toc {
    /// Counts the directories and files and sums the files' sizes.
    pub fn statistics(&self) -> (stats: TocStatistics)
        requires
            self@.files.len() <= u32::MAX,
        ensures
            stats == spec_statistics(self@),
    {
        let files = self.files();
        let ghost fv = self@.files;
        let mut file_count: usize = 0;
        let mut deleted_count: usize = 0;
        let mut total_compressed_size: i64 = 0;
        let mut total_decompressed_size: i64 = 0;
        let mut uncompressed_count: usize = 0;
        let mut under_1kb: usize = 0;
        let mut kb_to_mb: usize = 0;
        let mut mb_to_10mb: usize = 0;
        let mut over_10mb: usize = 0;
        let mut i: usize = 0;
        while i < files.len()
            invariant
                crate::toc::nodes_view(files@) == fv,
                fv.len() <= u32::MAX,
                i <= fv.len(),
                file_count == count_matching(fv.subrange(0, i as int), |n: NodeView| is_active(n)),
                deleted_count == count_matching(fv.subrange(0, i as int), |n: NodeView| is_deleted(n)),
                total_compressed_size == sum_over(fv.subrange(0, i as int), |n: NodeView| comp_len_of(n)),
                total_decompressed_size == sum_over(fv.subrange(0, i as int), |n: NodeView| len_of(n)),
                uncompressed_count == count_matching(
                    fv.subrange(0, i as int),
                    |n: NodeView| is_active(n) && is_uncompressed(n),
                ),
                under_1kb == count_matching(
                    fv.subrange(0, i as int),
                    |n: NodeView| is_active(n) && is_under_1kb(n),
                ),
                kb_to_mb == count_matching(
                    fv.subrange(0, i as int),
                    |n: NodeView| is_active(n) && is_kb_to_mb(n),
                ),
                mb_to_10mb == count_matching(
                    fv.subrange(0, i as int),
                    |n: NodeView| is_active(n) && is_mb_to_10mb(n),
                ),
                over_10mb == count_matching(
                    fv.subrange(0, i as int),
                    |n: NodeView| is_active(n) && is_over_10mb(n),
                ),
            decreases fv.len() - i,
        {
            let node = &files[i];
            let ghost prefix = fv.subrange(0, i as int);
            let ghost next = fv.subrange(0, i + 1);
            assert(next.drop_last() =~= prefix);
            assert(next.last() == node@);
            proof {
                lemma_count_bounds(prefix, |n: NodeView| is_active(n));
                lemma_count_bounds(prefix, |n: NodeView| is_deleted(n));
                lemma_count_bounds(prefix, |n: NodeView| is_active(n) && is_uncompressed(n));
                lemma_count_bounds(prefix, |n: NodeView| is_active(n) && is_under_1kb(n));
                lemma_count_bounds(prefix, |n: NodeView| is_active(n) && is_kb_to_mb(n));
                lemma_count_bounds(prefix, |n: NodeView| is_active(n) && is_mb_to_10mb(n));
                lemma_count_bounds(prefix, |n: NodeView| is_active(n) && is_over_10mb(n));
                lemma_sum_bounds(prefix, |n: NodeView| comp_len_of(n), 0x8000_0000);
                lemma_sum_bounds(prefix, |n: NodeView| len_of(n), 0x8000_0000);
                assert(0x8000_0000 * prefix.len() <= 0x8000_0000 * 0xFFFF_FFFFint) by (nonlinear_arith)
                    requires
                        prefix.len() < 0xFFFF_FFFF,
                ;
            }
            // A timestamp of 0 marks a deleted or replaced entry, kept only
            // when such entries were resurrected.
            if node.timestamp() == 0 {
                deleted_count += 1;
            } else {
                file_count += 1;

                let comp_len = node.comp_len() as i64;
                let len = node.len() as i64;

                total_compressed_size += comp_len;
                total_decompressed_size += len;

                if comp_len == len {
                    uncompressed_count += 1;
                }

                if len < 1024 {
                    under_1kb += 1;
                } else if len < 1024 * 1024 {
                    kb_to_mb += 1;
                } else if len < 10 * 1024 * 1024 {
                    mb_to_10mb += 1;
                } else {
                    over_10mb += 1;
                }
            }
            i += 1;
        }
        assert(fv.subrange(0, i as int) =~= fv);

        let dirs = self.directories();
        let ghost dv = self@.dirs;
        let mut directory_count: usize = 0;
        let mut j: usize = 0;
        while j < dirs.len()
            invariant
                crate::toc::nodes_view(dirs@) == dv,
                j <= dv.len(),
                directory_count == count_matching(dv.subrange(0, j as int), |n: NodeView| is_directory(n)),
            decreases dv.len() - j,
        {
            let ghost prefix = dv.subrange(0, j as int);
            assert(dv.subrange(0, j + 1).drop_last() =~= prefix);
            proof {
                lemma_count_bounds(prefix, |n: NodeView| is_directory(n));
            }
            if dirs[j].kind() == NodeKind::Directory {
                directory_count += 1;
            }
            j += 1;
        }
        assert(dv.subrange(0, j as int) =~= dv);

        TocStatistics {
            directory_count,
            file_count,
            deleted_count,
            total_compressed_size,
            total_decompressed_size,
            uncompressed_count,
            size_distribution: SizeDistribution { under_1kb, kb_to_mb, mb_to_10mb, over_10mb },
        }
    }
}

/// Whether `files[j]` is the last of the files of largest decompressed size.
pub open spec fn is_last_largest(files: Seq<NodeView>, j: int) -> bool {
    &&& 0 <= j < files.len()
    &&& forall|k: int| 0 <= k < files.len() ==> #[trigger] files[k].len <= files[j].len
    &&& forall|k: int| j < k < files.len() ==> #[trigger] files[k].len < files[j].len
}

impl Toc {
    /// The name, compressed size and size of the largest file (the last of
    /// them when several share the largest size), or `None` when there are
    /// no files.
    pub fn largest_file(&self) -> (res: Option<(String, i32, i32)>)
        ensures
            match res {
                None => self@.files.len() == 0,
                Some((name, comp_len, len)) => exists|j: int|
                    #![trigger self@.files[j]]
                    is_last_largest(self@.files, j) && name@ == self@.files[j].name && comp_len
                        == self@.files[j].comp_len && len == self@.files[j].len,
            },
    {
        let files = self.files();
        let ghost fv = self@.files;
        if files.len() == 0 {
            return None;
        }
        let mut best: usize = 0;
        let mut i: usize = 1;
        while i < files.len()
            invariant
                crate::toc::nodes_view(files@) == fv,
                1 <= i <= fv.len(),
                is_last_largest(fv.subrange(0, i as int), best as int),
            decreases fv.len() - i,
        {
            if files[i].len() >= files[best].len() {
                best = i;
            }
            i += 1;
        }
        assert(fv.subrange(0, i as int) =~= fv);
        let node = &files[best];
        Some((String::from_str(node.name()), node.comp_len(), node.len()))
    }

    /// The number of directory and file nodes.
    pub fn total_entries(&self) -> (res: usize)
        requires
            self@.dirs.len() + self@.files.len() <= usize::MAX,
        ensures
            res == self@.dirs.len() + self@.files.len(),
    {
        self.directories().len() + self.files().len()
    }
}

proof fn lemma_buckets(nodes: Seq<NodeView>)
    ensures
        count_matching(nodes, |n: NodeView| is_active(n) && is_under_1kb(n)) + count_matching(
            nodes,
            |n: NodeView| is_active(n) && is_kb_to_mb(n),
        ) + count_matching(nodes, |n: NodeView| is_active(n) && is_mb_to_10mb(n))
            + count_matching(nodes, |n: NodeView| is_active(n) && is_over_10mb(n))
            == count_matching(nodes, |n: NodeView| is_active(n)),
        count_matching(nodes, |n: NodeView| is_active(n)) + count_matching(
            nodes,
            |n: NodeView| is_deleted(n),
        ) == nodes.len(),
        count_matching(nodes, |n: NodeView| is_active(n) && is_uncompressed(n)) <= count_matching(
            nodes,
            |n: NodeView| is_active(n),
        ),
    decreases nodes.len(),
{
    if nodes.len() > 0 {
        lemma_buckets(nodes.drop_last());
    }
}

proof fn lemma_all_active(nodes: Seq<NodeView>)
    requires
        forall|i: int| 0 <= i < nodes.len() ==> (#[trigger] nodes[i]).timestamp != 0,
    ensures
        count_matching(nodes, |n: NodeView| is_deleted(n)) == 0,
        sum_over(nodes, |n: NodeView| comp_len_of(n)) == sum_over(
            nodes,
            |n: NodeView| n.comp_len as int,
        ),
        sum_over(nodes, |n: NodeView| len_of(n)) == sum_over(nodes, |n: NodeView| n.len as int),
    decreases nodes.len(),
{
    if nodes.len() > 0 {
        assert(nodes.last() == nodes[nodes.len() - 1]);
        lemma_all_active(nodes.drop_last());
    }
}

/// Law: every active file falls in exactly one size bucket, so the buckets
/// add up to the number of active files; no more active files are
/// uncompressed than exist; and every file is either active or deleted.
pub proof fn law_statistics_buckets(toc: TocView)
    requires
        toc.files.len() <= u32::MAX,
    ensures
        ({
            let s = spec_statistics(toc);
            &&& s.size_distribution.under_1kb + s.size_distribution.kb_to_mb
                + s.size_distribution.mb_to_10mb + s.size_distribution.over_10mb == s.file_count
            &&& s.uncompressed_count <= s.file_count
            &&& s.file_count + s.deleted_count == toc.files.len()
        }),
{
    lemma_buckets(toc.files);
    lemma_count_bounds(toc.files, |n: NodeView| is_active(n) && is_under_1kb(n));
    lemma_count_bounds(toc.files, |n: NodeView| is_active(n) && is_kb_to_mb(n));
    lemma_count_bounds(toc.files, |n: NodeView| is_active(n) && is_mb_to_10mb(n));
    lemma_count_bounds(toc.files, |n: NodeView| is_active(n) && is_over_10mb(n));
    lemma_count_bounds(toc.files, |n: NodeView| is_active(n) && is_uncompressed(n));
    lemma_count_bounds(toc.files, |n: NodeView| is_active(n));
    lemma_count_bounds(toc.files, |n: NodeView| is_deleted(n));
}

/// Law: when no file is deleted (replaced entries were not resurrected),
/// every file counts as active: the file count is the number of files, no
/// entry counts as deleted, and the totals are the sums of all files'
/// compressed and decompressed sizes.
pub proof fn law_statistics_without_deleted(toc: TocView)
    requires
        toc.files.len() <= u32::MAX,
        forall|i: int| 0 <= i < toc.files.len() ==> (#[trigger] toc.files[i]).timestamp != 0,
    ensures
        ({
            let s = spec_statistics(toc);
            &&& s.file_count == toc.files.len()
            &&& s.deleted_count == 0
            &&& s.total_compressed_size == sum_over(toc.files, |n: NodeView| n.comp_len as int)
            &&& s.total_decompressed_size == sum_over(toc.files, |n: NodeView| n.len as int)
        }),
{
    lemma_buckets(toc.files);
    lemma_all_active(toc.files);
    lemma_sum_bounds(toc.files, |n: NodeView| comp_len_of(n), 0x8000_0000);
    lemma_sum_bounds(toc.files, |n: NodeView| len_of(n), 0x8000_0000);
    assert(0x8000_0000 * toc.files.len() <= 0x8000_0000 * 0xFFFF_FFFFint) by (nonlinear_arith)
        requires
            toc.files.len() <= 0xFFFF_FFFF,
    ;
}

/// Law: the statistics count, among the files whose timestamp is not 0,
/// those under 1024 bytes, those of 1024 bytes up to 1 MiB (1 048 576
/// bytes), those of 1 MiB up to 10 MiB (10 485 760 bytes) and those of
/// 10 MiB or more; the files stored uncompressed; and apart from them the
/// files with timestamp 0.
pub proof fn law_statistics_buckets_by_size(toc: TocView)
    ensures
        ({
            let s = spec_statistics(toc);
            &&& s.size_distribution.under_1kb == count_matching(
                toc.files,
                |n: NodeView| n.timestamp != 0 && n.len < 1024,
            ) as usize
            &&& s.size_distribution.kb_to_mb == count_matching(
                toc.files,
                |n: NodeView| n.timestamp != 0 && 1024 <= n.len && n.len < 1048576,
            ) as usize
            &&& s.size_distribution.mb_to_10mb == count_matching(
                toc.files,
                |n: NodeView| n.timestamp != 0 && 1048576 <= n.len && n.len < 10485760,
            ) as usize
            &&& s.size_distribution.over_10mb == count_matching(
                toc.files,
                |n: NodeView| n.timestamp != 0 && 10485760 <= n.len,
            ) as usize
            &&& s.uncompressed_count == count_matching(
                toc.files,
                |n: NodeView| n.timestamp != 0 && n.comp_len == n.len,
            ) as usize
            &&& s.file_count == count_matching(toc.files, |n: NodeView| n.timestamp != 0) as usize
            &&& s.deleted_count == count_matching(toc.files, |n: NodeView| n.timestamp == 0) as usize
        }),
{
    assert((|n: NodeView| is_active(n) && is_under_1kb(n)) =~= (|n: NodeView| n.timestamp != 0
        && n.len < 1024));
    assert((|n: NodeView| is_active(n) && is_kb_to_mb(n)) =~= (|n: NodeView| n.timestamp != 0
        && 1024 <= n.len && n.len < 1048576));
    assert((|n: NodeView| is_active(n) && is_mb_to_10mb(n)) =~= (|n: NodeView| n.timestamp != 0
        && 1048576 <= n.len && n.len < 10485760));
    assert((|n: NodeView| is_active(n) && is_over_10mb(n)) =~= (|n: NodeView| n.timestamp != 0
        && 10485760 <= n.len));
    assert((|n: NodeView| is_active(n) && is_uncompressed(n)) =~= (|n: NodeView| n.timestamp != 0
        && n.comp_len == n.len));
    assert((|n: NodeView| is_active(n)) =~= (|n: NodeView| n.timestamp != 0));
    assert((|n: NodeView| is_deleted(n)) =~= (|n: NodeView| n.timestamp == 0));
}

} // verus!
