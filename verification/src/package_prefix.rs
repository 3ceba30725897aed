//! Reading the first bytes of a package: every read either ends within them and gives what it
//! gives on the whole, or runs past them and stops with a truncation error.
use vstd::prelude::*;
use crate::package::{PkgErrorView, NodeView, CompView};
use crate::package_read::{
    fits, rd16, rd32, spec_read_strings, spec_read_comp_table, spec_read_idx_strings, spec_read_node,
    spec_read_nodes, spec_build_comps, spec_read_head, spec_read_package, table_total, CompEntry, read_counts_fit,
};

verus! {

/// The read stopped because bytes ran out.
pub open spec fn is_trunc<T>(r: Result<T, PkgErrorView>) -> bool {
    r matches Err(PkgErrorView::Truncated(_))
}

/// Where the read of the whole ended within the first `k` bytes, the read of those bytes gives
/// the same; where it ended past them, the read of those bytes is a truncation error.
pub open spec fn prefix_reads<T>(whole: Result<(T, int), PkgErrorView>, part: Result<(T, int), PkgErrorView>, k: int) -> bool {
    match whole {
        Ok((_, q)) => if q <= k {
            part == whole
        } else {
            is_trunc(part)
        },
        Err(_) => true,
    }
}

/// The little-endian reads at `p` see the same bytes in the first `k` bytes.
proof fn lemma_take_rd(b: Seq<u8>, k: int, p: int)
    requires
        0 <= p,
        k <= b.len(),
    ensures
        p + 2 <= k ==> rd16(b.take(k), p) == rd16(b, p),
        p + 4 <= k ==> rd32(b.take(k), p) == rd32(b, p),
        p < k ==> b.take(k)[p] == b[p],
{
    let c = b.take(k);
    if p + 2 <= k {
        assert(c[p] == b[p] && c[p + 1] == b[p + 1]);
    }
    if p + 4 <= k {
        assert(c[p] == b[p] && c[p + 1] == b[p + 1] && c[p + 2] == b[p + 2] && c[p + 3] == b[p + 3]);
    }
}

proof fn lemma_take_sub(b: Seq<u8>, k: int, x: int, y: int)
    requires
        0 <= x <= y <= k <= b.len(),
    ensures
        b.take(k).subrange(x, y) == b.subrange(x, y),
{
    assert(b.take(k).subrange(x, y) =~= b.subrange(x, y));
}

proof fn lemma_strings_prefix(b: Seq<u8>, k: int, p: int, n: nat)
    requires
        0 <= p,
        0 <= k <= b.len(),
    ensures
        spec_read_strings(b, p, n) matches Ok((_, q)) ==> q >= p,
        p <= k ==> prefix_reads(spec_read_strings(b, p, n), spec_read_strings(b.take(k), p, n), k),
    decreases n,
{
    let c = b.take(k);
    if n > 0 && fits(b, p, 2) {
        let len = rd16(b, p) as int;
        lemma_strings_prefix(b, k, p + 2 + len, (n - 1) as nat);
        if p <= k && fits(c, p, 2) {
            lemma_take_rd(b, k, p);
            if fits(c, p + 2, len) {
                lemma_take_sub(b, k, p + 2, p + 2 + len);
            }
        }
    }
}

proof fn lemma_comp_table_prefix(b: Seq<u8>, k: int, p: int, n: nat)
    requires
        0 <= p,
        0 <= k <= b.len(),
    ensures
        spec_read_comp_table(b, p, n) matches Ok((_, q)) ==> q >= p,
        p <= k ==> prefix_reads(spec_read_comp_table(b, p, n), spec_read_comp_table(b.take(k), p, n), k),
    decreases n,
{
    let c = b.take(k);
    if n > 0 {
        lemma_comp_table_prefix(b, k, p + 14, (n - 1) as nat);
        lemma_take_rd(b, k, p);
        lemma_take_rd(b, k, p + 2);
        lemma_take_rd(b, k, p + 6);
        lemma_take_rd(b, k, p + 10);
    }
}

proof fn lemma_idx_prefix(b: Seq<u8>, k: int, p: int, n: nat, strings: Seq<Seq<char>>, ctx: Seq<char>)
    requires
        0 <= p,
        0 <= k <= b.len(),
    ensures
        spec_read_idx_strings(b, p, n, strings, ctx) matches Ok((_, q)) ==> q >= p,
        p <= k ==> prefix_reads(spec_read_idx_strings(b, p, n, strings, ctx), spec_read_idx_strings(b.take(k), p, n, strings, ctx), k),
    decreases n,
{
    if n > 0 {
        lemma_idx_prefix(b, k, p + 2, (n - 1) as nat, strings, ctx);
        lemma_take_rd(b, k, p);
    }
}

proof fn lemma_node_prefix(b: Seq<u8>, k: int, p: int, strings: Seq<Seq<char>>)
    requires
        0 <= p,
        0 <= k <= b.len(),
    ensures
        spec_read_node(b, p, strings) matches Ok((_, q)) ==> q >= p,
        p <= k ==> prefix_reads(spec_read_node(b, p, strings), spec_read_node(b.take(k), p, strings), k),
{
    let c = b.take(k);
    lemma_take_rd(b, k, p);
    lemma_take_rd(b, k, p + 4);
    lemma_take_rd(b, k, p + 5);
    if fits(b, p, 4) && fits(b, p + 4, 1) && fits(b, p + 5, 4) && fits(b, p + 9, rd32(b, p + 5) as int) {
        let q = p + 9 + rd32(b, p + 5) as int;
        lemma_take_rd(b, k, q);
        lemma_take_rd(b, k, q + 2);
        lemma_take_rd(b, k, q + 4);
        if q <= k {
            lemma_take_sub(b, k, p + 9, q);
        }
        if fits(b, q, 2) && fits(b, q + 2, 2) && fits(b, q + 4, 2) {
            let ctx = "class_idx"@;
            lemma_idx_prefix(b, k, q + 6, rd16(b, q + 4) as nat, strings, ctx);
            match spec_read_idx_strings(b, q + 6, rd16(b, q + 4) as nat, strings, ctx) {
                Ok((classes, r)) => {
                    lemma_take_rd(b, k, r);
                    lemma_take_rd(b, k, r + 2);
                    lemma_take_rd(b, k, r + 3);
                },
                Err(_) => {},
            }
        }
    }
}

proof fn lemma_nodes_prefix(b: Seq<u8>, k: int, p: int, n: nat, strings: Seq<Seq<char>>)
    requires
        0 <= p,
        0 <= k <= b.len(),
    ensures
        spec_read_nodes(b, p, n, strings) matches Ok((_, q)) ==> q >= p,
        p <= k ==> prefix_reads(spec_read_nodes(b, p, n, strings), spec_read_nodes(b.take(k), p, n, strings), k),
    decreases n,
{
    if n > 0 {
        lemma_node_prefix(b, k, p, strings);
        match spec_read_node(b, p, strings) {
            Ok((node, q)) => {
                lemma_nodes_prefix(b, k, q, (n - 1) as nat, strings);
            },
            Err(_) => {},
        }
    }
}

proof fn lemma_build_prefix(
    b: Seq<u8>,
    k: int,
    p: int,
    table: Seq<CompEntry>,
    all: Seq<NodeView>,
    strings: Seq<Seq<char>>,
    acc: Seq<CompView>,
)
    requires
        0 <= p,
        0 <= k <= b.len(),
    ensures
        spec_build_comps(b, p, table, all, strings, acc) matches Ok((_, q)) ==> q >= p,
        p <= k ==> prefix_reads(spec_build_comps(b, p, table, all, strings, acc), spec_build_comps(b.take(k), p, table, all, strings, acc), k),
    decreases table.len(),
{
    if table.len() > 0 {
        let e = table[0];
        if p + e.3 as int <= k {
            lemma_take_sub(b, k, p, p + e.3 as int);
        }
        match spec_build_comps(b, p, table, all, strings, acc) {
            Ok(_) => {
                let name = crate::package_read::spec_string_at(strings, e.0)->Ok_0;
                let start = e.1 as int;
                let end = start + e.2 as int;
                let nodes = crate::package_read::spec_localize(all.subrange(start, end), start)->Ok_0;
                let acc1 = acc.push(CompView { name, nodes, dynamic_rules: b.subrange(p, p + e.3 as int) });
                lemma_build_prefix(b, k, p + e.3 as int, table.drop_first(), all, strings, acc1);
            },
            Err(_) => {},
        }
    }
}

proof fn lemma_head_prefix(b: Seq<u8>, k: int)
    requires
        0 <= k <= b.len(),
    ensures
        spec_read_head(b) matches Ok((_, _, q)) ==> q >= 20 && (q <= k ==> spec_read_head(b.take(k)) == spec_read_head(b))
            && (k < q ==> is_trunc(spec_read_head(b.take(k)))),
{
    lemma_take_rd(b, k, 0);
    lemma_take_rd(b, k, 4);
    lemma_take_rd(b, k, 12);
    lemma_take_rd(b, k, 16);
    if fits(b, 20, 0) && k >= 20 {
        lemma_strings_prefix(b, k, 20, rd32(b, 16) as nat);
    } else {
        lemma_strings_prefix(b, b.len() as int, 20, rd32(b, 16) as nat);
    }
    match spec_read_strings(b, 20, rd32(b, 16) as nat) {
        Ok((strings, p1)) => {
            if p1 <= k {
                lemma_comp_table_prefix(b, k, p1, rd32(b, 12) as nat);
            } else {
                lemma_comp_table_prefix(b, b.len() as int, p1, rd32(b, 12) as nat);
            }
        },
        Err(_) => {},
    }
}

/// Where the read of a package ends: the end of its asset-path list, or `None` when the read
/// fails.
pub open spec fn package_end(b: Seq<u8>) -> Option<int> {
    match spec_read_head(b) {
        Err(_) => None,
        Ok((strings, table, p2)) => match spec_read_nodes(b, p2, table_total(table) as nat, strings) {
            Err(_) => None,
            Ok((all, p3)) => match spec_build_comps(b, p3, table, all, strings, Seq::empty()) {
                Err(_) => None,
                Ok((comps, p4)) => if !fits(b, p4, 4) {
                    None
                } else {
                    match spec_read_idx_strings(b, p4 + 4, rd32(b, p4) as nat, strings, "manifest_path_idx"@) {
                        Err(_) => None,
                        Ok((_, q)) => Some(q),
                    }
                },
            },
        },
    }
}

/// A package whose read ends at `p5` reads, cut to its first `k < p5` bytes, as a truncation
/// error.
pub proof fn lemma_package_prefix(b: Seq<u8>, k: int, p5: int)
    requires
        0 <= k < p5,
        package_end(b) == Some(p5),
        p5 <= b.len(),
    ensures
        is_trunc(spec_read_package(b.take(k))),
{
    let c = b.take(k);
    lemma_head_prefix(b, k);
    let (strings, table, p2) = spec_read_head(b)->Ok_0;
    if p2 <= k {
        lemma_nodes_prefix(b, k, p2, table_total(table) as nat, strings);
        let (all, p3) = spec_read_nodes(b, p2, table_total(table) as nat, strings)->Ok_0;
        lemma_nodes_prefix(b, b.len() as int, p2, table_total(table) as nat, strings);
        if p3 <= k {
            lemma_build_prefix(b, k, p3, table, all, strings, Seq::empty());
            let (comps, p4) = spec_build_comps(b, p3, table, all, strings, Seq::empty())->Ok_0;
            lemma_build_prefix(b, b.len() as int, p3, table, all, strings, Seq::empty());
            if p4 <= k {
                lemma_take_rd(b, k, p4);
                lemma_idx_prefix(b, b.len() as int, p4 + 4, rd32(b, p4) as nat, strings, "manifest_path_idx"@);
                if p4 + 4 <= k {
                    lemma_idx_prefix(b, k, p4 + 4, rd32(b, p4) as nat, strings, "manifest_path_idx"@);
                }
            }
        }
    }
}

/// The first `k` bytes of a package whose header and tables read keep the reader's node-count
/// condition: their header either stops short or reads the same tables.
pub proof fn lemma_prefix_counts_fit(b: Seq<u8>, k: int)
    requires
        0 <= k <= b.len(),
        spec_read_head(b) is Ok,
        read_counts_fit(b),
    ensures
        read_counts_fit(b.take(k)),
{
    lemma_head_prefix(b, k);
}

} // verus!
