//! Names of the indicator columns of a one-hot expansion.

use vstd::prelude::*;
use crate::onehot::{block_start, spec_onehot, lemma_block_start_monotone};

verus! {

/// The decimal digit character for `d < 10`.
pub open spec fn digit_char(d: nat) -> char {
    if d == 0 {
        '0'
    } else if d == 1 {
        '1'
    } else if d == 2 {
        '2'
    } else if d == 3 {
        '3'
    } else if d == 4 {
        '4'
    } else if d == 5 {
        '5'
    } else if d == 6 {
        '6'
    } else if d == 7 {
        '7'
    } else if d == 8 {
        '8'
    } else {
        '9'
    }
}

/// The decimal representation of `k`, without leading zeros.
pub open spec fn decimal(k: nat) -> Seq<char>
    decreases k,
{
    if k < 10 {
        seq![digit_char(k)]
    } else {
        decimal(k / 10).push(digit_char(k % 10))
    }
}

/// The name of indicator column `k` of the input column `name`:
/// `name`, an underscore, and `k` in decimal.
pub open spec fn indicator_name(name: Seq<char>, k: nat) -> Seq<char> {
    name + seq!['_'] + decimal(k)
}

/// The indicator names of the first `j` input columns, column by column, each
/// column contributing one name per bin.
pub open spec fn indicator_names(names: Seq<Seq<char>>, n_bins: Seq<usize>, j: int) -> Seq<Seq<char>>
    decreases j,
{
    if j <= 0 {
        Seq::empty()
    } else {
        indicator_names(names, n_bins, j - 1) + Seq::new(
            n_bins[j - 1] as nat,
            |k: int| indicator_name(names[j - 1], k as nat),
        )
    }
}

/// The character views of a sequence of strings.
pub open spec fn views(v: Seq<String>) -> Seq<Seq<char>> {
    v.map_values(|s: String| s@)
}

fn digit_str(d: usize) -> (s: &'static str)
    requires
        d < 10,
    ensures
        s@ == seq![digit_char(d as nat)],
{
    proof {
        reveal_strlit("0");
        reveal_strlit("1");
        reveal_strlit("2");
        reveal_strlit("3");
        reveal_strlit("4");
        reveal_strlit("5");
        reveal_strlit("6");
        reveal_strlit("7");
        reveal_strlit("8");
        reveal_strlit("9");
    }
    if d == 0 {
        "0"
    } else if d == 1 {
        "1"
    } else if d == 2 {
        "2"
    } else if d == 3 {
        "3"
    } else if d == 4 {
        "4"
    } else if d == 5 {
        "5"
    } else if d == 6 {
        "6"
    } else if d == 7 {
        "7"
    } else if d == 8 {
        "8"
    } else {
        "9"
    }
}

/// Appends `k` in decimal to `s`.
pub fn push_decimal(s: &mut String, k: usize)
    ensures
        final(s)@ == old(s)@ + decimal(k as nat),
    decreases k,
{
    if k >= 10 {
        push_decimal(s, k / 10);
    }
    let d = digit_str(k % 10);
    s.append(d);
    proof {
        if k >= 10 {
            assert(old(s)@ + decimal(k as nat) =~= old(s)@ + decimal((k / 10) as nat) + seq![
                digit_char((k % 10) as nat),
            ]);
        }
    }
}

/// The indicator name of column `name` and bin `k`.
pub fn indicator_column_name(name: &String, k: usize) -> (s: String)
    ensures
        s@ == indicator_name(name@, k as nat),
{
    let mut s = name.clone();
    proof {
        reveal_strlit("_");
    }
    s.append("_");
    push_decimal(&mut s, k);
    s
}

/// One-hot column names: for each input column paired with its bin count,
/// `name_0`, `name_1`, ... up to one name per bin. Pairing stops at the
/// shorter of the two lists.
pub fn onehot_col_names(col_names: &Vec<String>, n_bins: &Vec<usize>) -> (out: Vec<String>)
    ensures
        views(out@) == indicator_names(
            views(col_names@),
            n_bins@,
            if col_names.len() <= n_bins.len() { col_names.len() as int } else { n_bins.len() as int },
        ),
        out.len() == block_start(
            n_bins@,
            if col_names.len() <= n_bins.len() { col_names.len() as int } else { n_bins.len() as int },
        ),
        forall|j: int, k: int|
            #![trigger out@[block_start(n_bins@, j) + k], col_names@[j]]
            0 <= j < col_names.len() && 0 <= j < n_bins.len() && 0 <= k < n_bins@[j]
                ==> out@[block_start(n_bins@, j) + k]@ == col_names@[j]@ + seq!['_'] + decimal(k as nat),
{
    let n = if col_names.len() <= n_bins.len() { col_names.len() } else { n_bins.len() };
    let mut out: Vec<String> = Vec::new();
    let mut j: usize = 0;
    while j < n
        invariant
            j <= n,
            n <= col_names.len(),
            n <= n_bins.len(),
            views(out@) =~= indicator_names(views(col_names@), n_bins@, j as int),
        decreases n - j,
    {
        let nb = n_bins[j];
        let mut k: usize = 0;
        let ghost before = views(out@);
        while k < nb
            invariant
                j < n,
                n <= col_names.len(),
                n <= n_bins.len(),
                nb == n_bins@[j as int],
                k <= nb,
                views(out@) =~= before + Seq::new(
                    k as nat,
                    |kk: int| indicator_name(col_names@[j as int]@, kk as nat),
                ),
            decreases nb - k,
        {
            let name = indicator_column_name(&col_names[j], k);
            let ghost prev = out@;
            out.push(name);
            proof {
                assert(out@ == prev.push(name));
                assert(views(out@) =~= views(prev).push(name@));
            }
            k = k + 1;
        }
        proof {
            assert(views(col_names@)[j as int] == col_names@[j as int]@);
        }
        j = j + 1;
    }
    proof {
        let names = views(col_names@);
        lemma_names_match_width(names, n_bins@, n as int);
        assert forall|jj: int, k: int|
            #![trigger out@[block_start(n_bins@, jj) + k], col_names@[jj]]
            0 <= jj < col_names.len() && 0 <= jj < n_bins.len() && 0 <= k < n_bins@[jj]
                implies out@[block_start(n_bins@, jj) + k]@ == col_names@[jj]@ + seq!['_'] + decimal(k as nat) by {
            lemma_indicator_names_at(names, n_bins@, n as int, jj, k);
            assert(names[jj] == col_names@[jj]@);
            assert(views(out@).len() == out@.len());
            lemma_block_start_monotone(n_bins@, jj, n as int);
            assert(block_start(n_bins@, jj) + k < out@.len());
            assert(views(out@)[block_start(n_bins@, jj) + k] == out@[block_start(n_bins@, jj) + k]@);
        }
    }
    out
}

/// Position by position: in the indicator names of the first `m` columns,
/// the name at column `j`'s block start plus `k` is column `j`'s name, an
/// underscore and `k` in decimal, for every bin `k` of column `j`; the names
/// of a column therefore end in `0, 1, ..., n_bins[j] - 1` in order.
pub proof fn lemma_indicator_names_at(names: Seq<Seq<char>>, n_bins: Seq<usize>, m: int, j: int, k: int)
    requires
        0 <= j < m <= n_bins.len(),
        m <= names.len(),
        0 <= k < n_bins[j],
    ensures
        block_start(n_bins, j) + k < indicator_names(names, n_bins, m).len(),
        indicator_names(names, n_bins, m)[block_start(n_bins, j) + k] == names[j] + seq!['_']
            + decimal(k as nat),
    decreases m,
{
    let prefix = indicator_names(names, n_bins, m - 1);
    lemma_block_start_monotone(n_bins, j, m - 1);
    lemma_names_match_width(names, n_bins, m - 1);
    lemma_names_match_width(names, n_bins, m);
    if j == m - 1 {
        assert(indicator_names(names, n_bins, m)[block_start(n_bins, j) + k] == Seq::new(
            n_bins[m - 1] as nat,
            |kk: int| indicator_name(names[m - 1], kk as nat),
        )[k]);
    } else {
        lemma_indicator_names_at(names, n_bins, m - 1, j, k);
        lemma_block_start_monotone(n_bins, j + 1, m - 1);
        assert(block_start(n_bins, j + 1) == block_start(n_bins, j) + n_bins[j]);
        assert(block_start(n_bins, j) + k < prefix.len());
        assert(indicator_names(names, n_bins, m) == prefix + Seq::new(
            n_bins[m - 1] as nat,
            |kk: int| indicator_name(names[m - 1], kk as nat),
        ));
        assert(indicator_names(names, n_bins, m)[block_start(n_bins, j) + k] == prefix[block_start(
            n_bins,
            j,
        ) + k]);
    }
}

/// As many indicator names as there are columns in an expanded row: the
/// names of all columns number the total of their bin counts.
pub proof fn lemma_names_match_width(names: Seq<Seq<char>>, n_bins: Seq<usize>, j: int)
    requires
        0 <= j <= n_bins.len(),
    ensures
        indicator_names(names, n_bins, j).len() == block_start(n_bins, j),
    decreases j,
{
    if j > 0 {
        lemma_names_match_width(names, n_bins, j - 1);
    }
}

/// There is exactly one indicator name per column of an expanded row: for
/// as many names as bin counts, the names number the width of every one-hot
/// row.
pub proof fn lemma_names_match_onehot_width(names: Seq<Seq<char>>, n_bins: Seq<usize>, ordinal: Seq<usize>)
    requires
        names.len() == n_bins.len(),
    ensures
        indicator_names(names, n_bins, names.len() as int).len() == spec_onehot(ordinal, n_bins).len(),
{
    lemma_names_match_width(names, n_bins, n_bins.len() as int);
    lemma_block_start_monotone(n_bins, 0, n_bins.len() as int);
}

} // verus!
