//! The measurement that sets the link threshold: how similar mutual neighbors are.

use vstd::prelude::*;

use crate::cluster::{edge_sims, mutual_edge_sims};
use crate::faces::{all_face_embeddings, in_pool};
use crate::library::Library;
use crate::rows::{select, tally};
use crate::text::{decimal, decimal_text, digit};

verus! {

/// The buckets of the histogram: from 0.30 on, each 0.05 wide.
pub const BUCKETS: usize = 14;

/// The bucket of a similarity; what lies outside goes to the first or the last.
pub open spec fn bucket_of(sim: i128) -> int {
    let b = (sim - 300_000_000_000) / 50_000_000_000;
    if b < 0 {
        0
    } else if b > 13 {
        13
    } else {
        b
    }
}

/// Tests for a similarity of the bucket.
pub open spec fn in_bucket(b: int) -> spec_fn(i128) -> bool {
    |sim: i128| bucket_of(sim) == b
}

/// How many similarities each of the first `n` buckets holds.
pub open spec fn histogram(sims: Seq<i128>, n: nat) -> Seq<nat> {
    Seq::new(n, |b: int| tally(sims, in_bucket(b)))
}

/// The largest of the first `n` counts, at least one.
pub open spec fn largest(counts: Seq<nat>) -> nat
    decreases counts.len(),
{
    if counts.len() == 0 {
        1
    } else {
        let rest = largest(counts.drop_last());
        if counts.last() > rest {
            counts.last()
        } else {
            rest
        }
    }
}

/// A number of hundredths with two decimals.
pub open spec fn hundredths(n: nat) -> Seq<char> {
    decimal(n / 100) + seq!['.', digit((n / 10 % 10) as int), digit((n % 10) as int)]
}

/// A run of marks.
pub open spec fn bar(n: nat) -> Seq<char> {
    Seq::new(n, |i: int| '#')
}

/// The line of a bucket.
pub open spec fn line(b: nat, count: nat, max: nat) -> Seq<char> {
    "  "@ + hundredths((30 + 5 * b) as nat) + "-"@ + hundredths((35 + 5 * b) as nat) + " | "@ + bar(
        count * 40 / max,
    ) + " "@ + decimal(count) + "\n"@
}

/// The lines of the first `n` buckets.
pub open spec fn lines(counts: Seq<nat>, max: nat, n: nat) -> Seq<char>
    decreases n,
{
    if n == 0 {
        Seq::empty()
    } else {
        lines(counts, max, (n - 1) as nat) + line((n - 1) as nat, counts[n - 1], max)
    }
}

/// The report.
pub open spec fn report_of(faces: nat, sims: Seq<i128>) -> Seq<char> {
    let head = "cluster_debug: "@ + decimal(faces) + " faces, "@ + decimal(sims.len())
        + " mutual-kNN edges\n"@;
    if sims.len() == 0 {
        head
    } else {
        let counts = histogram(sims, 14);
        head + lines(counts, largest(counts), 14)
    }
}

fn bucket(sim: i128) -> (b: usize)
    ensures
        b == bucket_of(sim),
{
    if sim < 300_000_000_000 {
        assert(bucket_of(sim) == 0) by (nonlinear_arith)
            requires
                sim < 300_000_000_000,
        ;
        0
    } else {
        let b: i128 = (sim - 300_000_000_000) / 50_000_000_000;
        if b > 13 {
            13
        } else {
            b as usize
        }
    }
}

fn count_bucket(sims: &Vec<i128>, b: usize) -> (n: usize)
    ensures
        n == tally(sims@, in_bucket(b as int)),
        n <= sims@.len(),
{
    let mut n: usize = 0;
    for i in 0..sims.len()
        invariant
            n == tally(sims@.take(i as int), in_bucket(b as int)),
            n <= i,
    {
        assert(sims@.take(i + 1).drop_last() == sims@.take(i as int));
        if bucket(sims[i]) == b {
            n = n + 1;
        }
    }
    assert(sims@.take(sims@.len() as int) == sims@);
    n
}

fn hundredths_text(n: u64) -> (t: String)
    ensures
        t@ == hundredths(n as nat),
{
    let mut t = decimal_text(n / 100);
    t.push('.');
    t.push((48 + (n / 10 % 10) as u8) as char);
    t.push((48 + (n % 10) as u8) as char);
    assert(t@ =~= hundredths(n as nat));
    t
}

fn line_text(b: usize, n: usize, max: usize) -> (t: String)
    requires
        b < BUCKETS,
        n <= max,
        max >= 1,
    ensures
        t@ == line(b as nat, n as nat, max as nat),
{
    let wide: u128 = n as u128 * 40 / max as u128;
    assert(n as int * 40 / max as int <= 40) by (nonlinear_arith)
        requires
            0 <= n <= max,
            max >= 1,
    ;
    let mut t = "  ".to_owned();
    t.append(hundredths_text(30 + 5 * b as u64).as_str());
    t.append("-");
    t.append(hundredths_text(35 + 5 * b as u64).as_str());
    t.append(" | ");
    let ghost before = t@;
    assert(before =~= before + bar(0));
    for k in 0..wide as usize
        invariant
            t@ == before + bar(k as nat),
    {
        t.push('#');
        assert(t@ =~= before + bar(k as nat + 1));
    }
    t.append(" ");
    t.append(decimal_text(n as u64).as_str());
    t.append("\n");
    t
}

/// The report over the similarities of mutual neighbors.
pub fn histogram_report(faces: usize, sims: &Vec<i128>) -> (t: String)
    ensures
        t@ == report_of(faces as nat, sims@),
{
    let mut t = "cluster_debug: ".to_owned();
    t.append(decimal_text(faces as u64).as_str());
    t.append(" faces, ");
    t.append(decimal_text(sims.len() as u64).as_str());
    t.append(" mutual-kNN edges\n");
    if sims.len() == 0 {
        return t;
    }
    let ghost head = t@;
    let ghost all = histogram(sims@, 14);
    let mut counts: Vec<usize> = Vec::with_capacity(BUCKETS);
    let mut max: usize = 1;
    for b in 0..BUCKETS
        invariant
            all == histogram(sims@, 14),
            counts@.len() == b,
            forall|k: int| 0 <= k < b ==> #[trigger] counts@[k] == all[k],
            max == largest(all.take(b as int)),
            max >= 1,
    {
        assert(all.take(b + 1).drop_last() == all.take(b as int));
        let n: usize = count_bucket(sims, b);
        counts.push(n);
        if n > max {
            max = n;
        }
    }
    assert(all.take(14) == all);
    for b in 0..BUCKETS
        invariant
            counts@.len() == BUCKETS,
            all.len() == BUCKETS,
            forall|k: int| 0 <= k < BUCKETS ==> #[trigger] counts@[k] == all[k],
            max == largest(all),
            max >= 1,
            t@ == head + lines(all, max as nat, b as nat),
    {
        proof {
            lemma_largest(all, b as int);
        }
        let text = line_text(b, counts[b], max);
        t.append(text.as_str());
        assert(lines(all, max as nat, b as nat + 1) == lines(all, max as nat, b as nat) + text@);
        assert(t@ =~= head + lines(all, max as nat, b as nat + 1));
    }
    t
}

/// The histogram of the library's face set: a clean separation shows up as a trough between
/// the within-person mass and the across-person tail, and the link threshold belongs in it.
pub fn cluster_debug(lib: &Library) -> (t: String)
    ensures
        t@ == report_of(
            select(lib@.faces, in_pool()).len(),
            edge_sims(select(lib@.faces, in_pool())),
        ),
{
    let faces = all_face_embeddings(lib);
    let sims = mutual_edge_sims(&faces);
    histogram_report(faces.len(), &sims)
}

proof fn lemma_largest(counts: Seq<nat>, i: int)
    requires
        0 <= i < counts.len(),
    ensures
        counts[i] <= largest(counts),
    decreases counts.len(),
{
    if i < counts.len() - 1 {
        lemma_largest(counts.drop_last(), i);
    }
}

} // verus!
