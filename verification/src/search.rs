//! The search engine: score every whitespace-separated token of every line
//! against the target with the edit distance, and keep the tokens scoring
//! strictly below the threshold, in reading order.

use crate::distance::{edit_dist, levenshtein_distance};
use crate::hit::{Hit, HitView};
use crate::text::{lines_of, split_lines, split_tokens, tokens_of};
use vstd::prelude::*;

verus! {

/// The matches among the tokens `toks` of line `lineno`: one record per
/// token at distance strictly below `threshold` from `target`, in token
/// order.
pub open spec fn hits_in_tokens(
    path: Seq<char>,
    lineno: nat,
    toks: Seq<Seq<char>>,
    target: Seq<char>,
    threshold: nat,
) -> Seq<HitView>
    decreases toks.len(),
{
    if toks.len() == 0 {
        Seq::<HitView>::empty()
    } else {
        let rest = hits_in_tokens(path, lineno, toks.drop_first(), target, threshold);
        if edit_dist(target, toks[0]) < threshold {
            seq![HitView { data: toks[0], file: path, line_number: lineno }] + rest
        } else {
            rest
        }
    }
}

/// The matches of consecutive lines, the first of them numbered
/// `first_line`.
pub open spec fn hits_in_lines(
    path: Seq<char>,
    ls: Seq<Seq<char>>,
    first_line: nat,
    target: Seq<char>,
    threshold: nat,
) -> Seq<HitView>
    decreases ls.len(),
{
    if ls.len() == 0 {
        Seq::<HitView>::empty()
    } else {
        hits_in_tokens(path, first_line, tokens_of(ls[0]), target, threshold) + hits_in_lines(
            path,
            ls.drop_first(),
            first_line + 1,
            target,
            threshold,
        )
    }
}

/// All matches of one file's content: line by line from line 1, each line's
/// tokens left to right.
pub open spec fn file_hits(
    path: Seq<char>,
    content: Seq<char>,
    target: Seq<char>,
    threshold: nat,
) -> Seq<HitView> {
    hits_in_lines(path, lines_of(content), 1, target, threshold)
}

/// All matches over a sequence of `(path, content)` files, concatenated in
/// the order the files are given.
pub open spec fn dir_hits(
    files: Seq<(Seq<char>, Seq<char>)>,
    target: Seq<char>,
    threshold: nat,
) -> Seq<HitView>
    decreases files.len(),
{
    if files.len() == 0 {
        Seq::<HitView>::empty()
    } else {
        file_hits(files[0].0, files[0].1, target, threshold) + dir_hits(
            files.drop_first(),
            target,
            threshold,
        )
    }
}

/// Every match of a line carries that line's number.
proof fn lemma_hits_in_tokens_lineno(
    path: Seq<char>,
    lineno: nat,
    toks: Seq<Seq<char>>,
    target: Seq<char>,
    threshold: nat,
)
    ensures
        forall|q: int|
            0 <= q < hits_in_tokens(path, lineno, toks, target, threshold).len() ==> hits_in_tokens(
                path,
                lineno,
                toks,
                target,
                threshold,
            )[q].line_number == lineno,
    decreases toks.len(),
{
    if toks.len() > 0 {
        lemma_hits_in_tokens_lineno(path, lineno, toks.drop_first(), target, threshold);
        let whole = hits_in_tokens(path, lineno, toks, target, threshold);
        let rest = hits_in_tokens(path, lineno, toks.drop_first(), target, threshold);
        assert forall|q: int| 0 <= q < whole.len() implies whole[q].line_number == lineno by {
            if edit_dist(target, toks[0]) < threshold {
                if q > 0 {
                    assert(whole[q] == rest[q - 1]);
                }
            } else {
                assert(whole[q] == rest[q]);
            }
        }
    }
}

/// The match records of a file are well formed: each line number is at least
/// the number of the first line.
proof fn lemma_hits_in_lines_wf(
    path: Seq<char>,
    ls: Seq<Seq<char>>,
    first_line: nat,
    target: Seq<char>,
    threshold: nat,
)
    ensures
        forall|q: int|
            0 <= q < hits_in_lines(path, ls, first_line, target, threshold).len()
                ==> hits_in_lines(path, ls, first_line, target, threshold)[q].line_number
                >= first_line,
    decreases ls.len(),
{
    if ls.len() > 0 {
        lemma_hits_in_tokens_lineno(path, first_line, tokens_of(ls[0]), target, threshold);
        lemma_hits_in_lines_wf(path, ls.drop_first(), first_line + 1, target, threshold);
        let whole = hits_in_lines(path, ls, first_line, target, threshold);
        let head = hits_in_tokens(path, first_line, tokens_of(ls[0]), target, threshold);
        let rest = hits_in_lines(path, ls.drop_first(), first_line + 1, target, threshold);
        assert forall|q: int| 0 <= q < whole.len() implies whole[q].line_number >= first_line by {
            if q < head.len() {
                assert(whole[q] == head[q]);
            } else {
                assert(whole[q] == rest[q - head.len()]);
            }
        }
    }
}

/// Every reported match carries a 1-based line number: none is 0.
pub proof fn lemma_file_hits_line_numbers(
    path: Seq<char>,
    content: Seq<char>,
    target: Seq<char>,
    threshold: nat,
)
    ensures
        forall|q: int|
            0 <= q < file_hits(path, content, target, threshold).len() ==> file_hits(
                path,
                content,
                target,
                threshold,
            )[q].line_number >= 1,
{
    lemma_hits_in_lines_wf(path, lines_of(content), 1, target, threshold);
}

/// Removing the file at index `k` removes exactly that file's matches from
/// the bag of results.
proof fn lemma_dir_hits_remove(
    files: Seq<(Seq<char>, Seq<char>)>,
    k: int,
    target: Seq<char>,
    threshold: nat,
)
    requires
        0 <= k < files.len(),
    ensures
        dir_hits(files, target, threshold).to_multiset() == dir_hits(
            files.remove(k),
            target,
            threshold,
        ).to_multiset().add(file_hits(files[k].0, files[k].1, target, threshold).to_multiset()),
    decreases files.len(),
{
    broadcast use vstd::seq_lib::lemma_multiset_commutative;

    let head = file_hits(files[0].0, files[0].1, target, threshold);
    if k == 0 {
        assert(files.remove(0) =~= files.drop_first());
        assert(dir_hits(files, target, threshold).to_multiset() =~= dir_hits(
            files.remove(0),
            target,
            threshold,
        ).to_multiset().add(head.to_multiset()));
    } else {
        lemma_dir_hits_remove(files.drop_first(), k - 1, target, threshold);
        assert(files.remove(k).drop_first() =~= files.drop_first().remove(k - 1));
        assert(files.remove(k)[0] == files[0]);
        assert(files.drop_first()[k - 1] == files[k]);
        assert(dir_hits(files, target, threshold).to_multiset() =~= dir_hits(
            files.remove(k),
            target,
            threshold,
        ).to_multiset().add(file_hits(files[k].0, files[k].1, target, threshold).to_multiset()));
    }
}

/// Enumeration order does not matter beyond the order of the records: two
/// listings of the same files, as `(path, content)` pairs in any order,
/// yield the same multiset of matches.
pub proof fn lemma_dir_hits_enumeration_order(
    files1: Seq<(Seq<char>, Seq<char>)>,
    files2: Seq<(Seq<char>, Seq<char>)>,
    target: Seq<char>,
    threshold: nat,
)
    requires
        files1.to_multiset() == files2.to_multiset(),
    ensures
        dir_hits(files1, target, threshold).to_multiset() == dir_hits(
            files2,
            target,
            threshold,
        ).to_multiset(),
    decreases files1.len(),
{
    broadcast use vstd::seq_lib::group_to_multiset_ensures;
    broadcast use vstd::seq_lib::lemma_multiset_commutative;

    vstd::seq_lib::to_multiset_len(files1);
    vstd::seq_lib::to_multiset_len(files2);
    if files1.len() == 0 {
        assert(files2.len() == 0);
    } else {
        let head = files1[0];
        assert(files1.contains(head));
        assert(files2.to_multiset().count(head) > 0);
        assert(files2.contains(head));
        let k = choose|k: int| 0 <= k < files2.len() && files2[k] == head;
        lemma_dir_hits_remove(files2, k, target, threshold);
        assert(files1.remove(0) =~= files1.drop_first());
        assert(files1.drop_first().to_multiset() == files1.to_multiset().remove(head));
        assert(files2.remove(k).to_multiset() == files2.to_multiset().remove(head));
        lemma_dir_hits_enumeration_order(files1.drop_first(), files2.remove(k), target, threshold);
        assert(dir_hits(files1, target, threshold).to_multiset() =~= dir_hits(
            files2,
            target,
            threshold,
        ).to_multiset());
    }
}

/// Scans one file's `content` for tokens whose edit distance to `target` is
/// strictly below `threshold`, recording each with `path` and its 1-based
/// line number.
pub fn search_text(path: &str, content: &str, target: &str, threshold: usize) -> (hits: Vec<Hit>)
    ensures
        hits.deep_view() == file_hits(path@, content@, target@, threshold as nat),
{
    let ls = split_lines(content);
    let ghost ls_seq = ls.deep_view();
    let mut hits: Vec<Hit> = Vec::new();
    let mut li: usize = 0;
    proof {
        assert(ls_seq.skip(0) =~= ls_seq);
        assert(hits.deep_view() + hits_in_lines(path@, ls_seq, 1, target@, threshold as nat) =~= hits_in_lines(
            path@,
            ls_seq,
            1,
            target@,
            threshold as nat,
        ));
    }
    while li < ls.len()
        invariant
            li <= ls@.len(),
            ls.deep_view() == ls_seq,
            ls_seq == lines_of(content@),
            ls_seq.len() == ls@.len(),
            hits.deep_view() + hits_in_lines(
                path@,
                ls_seq.skip(li as int),
                li as nat + 1,
                target@,
                threshold as nat,
            ) == file_hits(path@, content@, target@, threshold as nat),
        decreases ls@.len() - li,
    {
        let toks = split_tokens(ls[li].as_str());
        let ghost toks_seq = toks.deep_view();
        let lineno: usize = li + 1;
        proof {
            assert(ls_seq.skip(li as int)[0] == ls_seq[li as int]);
            assert(ls_seq.skip(li as int).drop_first() =~= ls_seq.skip(li + 1));
            assert(hits_in_lines(path@, ls_seq.skip(li as int), li as nat + 1, target@, threshold as nat)
                == hits_in_tokens(path@, lineno as nat, toks_seq, target@, threshold as nat)
                + hits_in_lines(path@, ls_seq.skip(li + 1), li as nat + 2, target@, threshold as nat));
            assert(toks_seq.skip(0) =~= toks_seq);
        }
        let mut ti: usize = 0;
        while ti < toks.len()
            invariant
                ti <= toks@.len(),
                li < ls@.len(),
                lineno == li + 1,
                toks.deep_view() == toks_seq,
                toks_seq.len() == toks@.len(),
                hits.deep_view() + hits_in_tokens(
                    path@,
                    lineno as nat,
                    toks_seq.skip(ti as int),
                    target@,
                    threshold as nat,
                ) + hits_in_lines(path@, ls_seq.skip(li + 1), li as nat + 2, target@, threshold as nat)
                    == file_hits(path@, content@, target@, threshold as nat),
            decreases toks@.len() - ti,
        {
            proof {
                assert(toks_seq.skip(ti as int)[0] == toks_seq[ti as int]);
                assert(toks_seq.skip(ti as int).drop_first() =~= toks_seq.skip(ti + 1));
            }
            let d = levenshtein_distance(target, toks[ti].as_str());
            if d < threshold {
                let ghost done = hits.deep_view();
                hits.push(Hit::new(toks[ti].clone(), path.to_owned(), lineno));
                proof {
                    assert(hits.deep_view() =~= done + seq![
                        HitView {
                            data: toks_seq[ti as int],
                            file: path@,
                            line_number: lineno as nat,
                        },
                    ]);
                    assert(hits.deep_view() + hits_in_tokens(
                        path@,
                        lineno as nat,
                        toks_seq.skip(ti + 1),
                        target@,
                        threshold as nat,
                    ) + hits_in_lines(
                        path@,
                        ls_seq.skip(li + 1),
                        li as nat + 2,
                        target@,
                        threshold as nat,
                    ) =~= file_hits(path@, content@, target@, threshold as nat));
                }
            }
            ti = ti + 1;
        }
        proof {
            assert(toks_seq.skip(toks_seq.len() as int) =~= Seq::<Seq<char>>::empty());
            assert(hits.deep_view() + hits_in_lines(
                path@,
                ls_seq.skip(li + 1),
                li as nat + 2,
                target@,
                threshold as nat,
            ) =~= file_hits(path@, content@, target@, threshold as nat));
        }
        li = li + 1;
    }
    proof {
        assert(ls_seq.skip(ls_seq.len() as int) =~= Seq::<Seq<char>>::empty());
        assert(hits.deep_view() =~= file_hits(path@, content@, target@, threshold as nat));
    }
    hits
}

/// Searches a batch of files, each given as a `(path, content)` pair, and
/// concatenates the per-file matches in the order the files are given.
pub fn search_files(files: &Vec<(String, String)>, target: &str, threshold: usize) -> (hits: Vec<
    Hit,
>)
    ensures
        hits.deep_view() == dir_hits(files.deep_view(), target@, threshold as nat),
{
    let ghost files_seq = files.deep_view();
    let mut hits: Vec<Hit> = Vec::new();
    let mut fi: usize = 0;
    proof {
        assert(files_seq.skip(0) =~= files_seq);
        assert(hits.deep_view() + dir_hits(files_seq, target@, threshold as nat) =~= dir_hits(
            files_seq,
            target@,
            threshold as nat,
        ));
    }
    while fi < files.len()
        invariant
            fi <= files@.len(),
            files.deep_view() == files_seq,
            files_seq.len() == files@.len(),
            hits.deep_view() + dir_hits(files_seq.skip(fi as int), target@, threshold as nat)
                == dir_hits(files_seq, target@, threshold as nat),
        decreases files@.len() - fi,
    {
        proof {
            assert(files_seq.skip(fi as int)[0] == files_seq[fi as int]);
            assert(files_seq.skip(fi as int).drop_first() =~= files_seq.skip(fi + 1));
        }
        let mut part = search_text(
            files[fi].0.as_str(),
            files[fi].1.as_str(),
            target,
            threshold,
        );
        let ghost done = hits.deep_view();
        let ghost part_seq = part.deep_view();
        hits.append(&mut part);
        proof {
            assert(hits.deep_view() =~= done + part_seq);
            assert(hits.deep_view() + dir_hits(files_seq.skip(fi + 1), target@, threshold as nat)
                =~= dir_hits(files_seq, target@, threshold as nat));
        }
        fi = fi + 1;
    }
    proof {
        assert(files_seq.skip(files_seq.len() as int) =~= Seq::<(Seq<char>, Seq<char>)>::empty());
        assert(hits.deep_view() =~= dir_hits(files_seq, target@, threshold as nat));
    }
    hits
}

} // verus!
