//! NUL-separated output of git (`ls-files -z`, `status -z`): its fields, and
//! the text each field decodes to.
use crate::git_status::{parse_status_paths, status_paths_from, texts};
use crate::bash_tool::{contains_path, normalize_path, path_key};
use crate::path_order::{distinct_paths, has_path, lemma_has_path_push, same_path};
use vstd::string::*;
use vstd::prelude::*;

verus! {

/// The pieces of `b` between the bytes equal to `sep`, as splitting a byte
/// slice at them yields them: always at least one, possibly empty.
pub open spec fn pieces(b: Seq<u8>, sep: u8) -> Seq<Seq<u8>>
    decreases b.len(),
{
    if b.len() == 0 {
        seq![Seq::<u8>::empty()]
    } else {
        let f = pieces(b.drop_last(), sep);
        if b.last() == sep {
            f.push(Seq::<u8>::empty())
        } else {
            f.update(f.len() - 1, f.last().push(b.last()))
        }
    }
}

/// The pieces one after the other with `sep` between them.
pub open spec fn joined_bytes(ps: Seq<Seq<u8>>, sep: u8) -> Seq<u8>
    decreases ps.len(),
{
    if ps.len() == 0 {
        Seq::empty()
    } else if ps.len() == 1 {
        ps[0]
    } else {
        joined_bytes(ps.drop_last(), sep) + seq![sep] + ps.last()
    }
}

proof fn lemma_joined_bytes_extend(ps: Seq<Seq<u8>>, sep: u8, c: u8)
    requires
        ps.len() >= 1,
    ensures
        joined_bytes(ps.update(ps.len() - 1, ps.last().push(c)), sep) == joined_bytes(ps, sep).push(
            c,
        ),
{
    let qs = ps.update(ps.len() - 1, ps.last().push(c));
    if ps.len() > 1 {
        assert(qs.drop_last() =~= ps.drop_last());
    }
}

/// Splitting at `sep` loses nothing and keeps `sep` out of every piece: the
/// pieces joined again with `sep` give back `b`.
pub proof fn lemma_pieces_rejoin(b: Seq<u8>, sep: u8)
    ensures
        joined_bytes(pieces(b, sep), sep) == b,
        forall|i: int, j: int|
            0 <= i < pieces(b, sep).len() && 0 <= j < pieces(b, sep)[i].len() ==> #[trigger] pieces(
                b,
                sep,
            )[i][j] != sep,
    decreases b.len(),
{
    if b.len() == 0 {
        assert(b =~= Seq::<u8>::empty());
    } else {
        let f = pieces(b.drop_last(), sep);
        lemma_pieces_rejoin(b.drop_last(), sep);
        lemma_pieces_len(b.drop_last(), sep);
        if b.last() == sep {
            assert(f.push(Seq::<u8>::empty()).drop_last() =~= f);
            assert(joined_bytes(f, sep) + seq![sep] + Seq::<u8>::empty() =~= b);
            assert forall|i: int, j: int|
                0 <= i < pieces(b, sep).len() && 0 <= j < pieces(b, sep)[i].len() implies #[trigger] pieces(
                b,
                sep,
            )[i][j] != sep by {
                assert(i < f.len());
                assert(pieces(b, sep)[i] == f[i]);
            }
        } else {
            lemma_joined_bytes_extend(f, sep, b.last());
            assert(joined_bytes(f, sep).push(b.last()) =~= b);
            assert forall|i: int, j: int|
                0 <= i < pieces(b, sep).len() && 0 <= j < pieces(b, sep)[i].len() implies #[trigger] pieces(
                b,
                sep,
            )[i][j] != sep by {
                if i < f.len() - 1 {
                    assert(pieces(b, sep)[i] == f[i]);
                } else if j < f.last().len() {
                    assert(pieces(b, sep)[i][j] == f[f.len() - 1][j]);
                }
            }
        }
    }
}

/// The fields of `b` between NUL bytes.
pub open spec fn nul_fields(b: Seq<u8>) -> Seq<Seq<u8>> {
    pieces(b, 0u8)
}

proof fn lemma_pieces_len(b: Seq<u8>, sep: u8)
    ensures
        pieces(b, sep).len() >= 1,
    decreases b.len(),
{
    if b.len() > 0 {
        lemma_pieces_len(b.drop_last(), sep);
    }
}

/// The byte content of each field.
pub open spec fn bytes_of(v: Seq<Vec<u8>>) -> Seq<Seq<u8>> {
    v.map_values(|f: Vec<u8>| f@)
}

/// Split `bytes` at every byte equal to `sep`.
pub fn split_bytes(bytes: &Vec<u8>, sep: u8) -> (r: Vec<Vec<u8>>)
    ensures
        bytes_of(r@) == pieces(bytes@, sep),
{
    let mut done: Vec<Vec<u8>> = Vec::new();
    let mut current: Vec<u8> = Vec::new();
    let mut i: usize = 0;
    while i < bytes.len()
        invariant
            i <= bytes.len(),
            bytes_of(done@).push(current@) =~= pieces(bytes@.take(i as int), sep),
        decreases bytes.len() - i,
    {
        let b = bytes[i];
        let ghost prefix = bytes@.take(i + 1);
        assert(prefix.drop_last() =~= bytes@.take(i as int));
        proof {
            lemma_pieces_len(bytes@.take(i as int), sep);
        }
        if b == sep {
            let ghost before = bytes_of(done@);
            let finished = current;
            done.push(finished);
            current = Vec::new();
            assert(bytes_of(done@) =~= before.push(finished@));
        } else {
            current.push(b);
        }
        i = i + 1;
    }
    assert(bytes@.take(bytes.len() as int) =~= bytes@);
    let ghost before = bytes_of(done@);
    done.push(current);
    assert(bytes_of(done@) =~= before.push(current@));
    done
}

/// Split `bytes` at every NUL byte.
pub fn split_nul(bytes: &Vec<u8>) -> (r: Vec<Vec<u8>>)
    ensures
        bytes_of(r@) == nul_fields(bytes@),
{
    split_bytes(bytes, 0)
}

/// The text of `bytes` read as UTF-8, each invalid sequence replaced by
/// U+FFFD (`String::from_utf8_lossy`).
pub uninterp spec fn lossy_text(bytes: Seq<u8>) -> Seq<char>;

/// Decode `bytes` as UTF-8, replacing invalid sequences.
///
/// Calls `String::from_utf8_lossy`; the contract names its result as a
/// function of the bytes and states nothing more of it.
#[verifier::external_body]
fn decode_lossy(bytes: &Vec<u8>) -> (r: String)
    ensures
        r@ == lossy_text(bytes@),
{
    String::from_utf8_lossy(bytes.as_slice()).to_string()
}

/// The text of each field.
pub open spec fn lossy_texts(fields: Seq<Seq<u8>>) -> Seq<Seq<char>> {
    fields.map_values(|f: Seq<u8>| lossy_text(f))
}

/// The text of each NUL-separated field of `bytes`.
pub fn decode_fields(bytes: &Vec<u8>) -> (r: Vec<String>)
    ensures
        texts(r@) == lossy_texts(nul_fields(bytes@)),
{
    let fields = split_nul(bytes);
    let mut r: Vec<String> = Vec::new();
    let mut i: usize = 0;
    while i < fields.len()
        invariant
            i <= fields.len(),
            bytes_of(fields@) == nul_fields(bytes@),
            texts(r@) =~= lossy_texts(bytes_of(fields@).take(i as int)),
        decreases fields.len() - i,
    {
        let t = decode_lossy(&fields[i]);
        let ghost before = texts(r@);
        r.push(t);
        assert(texts(r@) =~= before.push(t@));
        assert(bytes_of(fields@).take(i + 1) =~= bytes_of(fields@).take(i as int).push(
            fields@[i as int]@,
        ));
        i = i + 1;
    }
    assert(bytes_of(fields@).take(fields.len() as int) =~= bytes_of(fields@));
    r
}

/// The paths that a `git ls-files -z` output lists: those that the key of
/// the text of a non-empty field names.
pub open spec fn listed_path(stdout: Seq<u8>, fold_case: bool, p: Seq<char>) -> bool {
    exists|i: int|
        0 <= i < nul_fields(stdout).len() && nul_fields(stdout)[i].len() > 0 && #[trigger] same_path(
            path_key(lossy_text(nul_fields(stdout)[i]), fold_case),
            p,
        )
}

/// Among the first `n` fields, a non-empty one has a key that names `p`.
spec fn listed_among(fields: Seq<Vec<u8>>, n: int, fold_case: bool, p: Seq<char>) -> bool {
    exists|k: int|
        0 <= k < n && k < fields.len() && fields[k]@.len() > 0 && #[trigger] same_path(
            path_key(lossy_text(fields[k]@), fold_case),
            p,
        )
}

/// The git-tracked files of a `git ls-files -z` output as snapshot keys
/// (lowercased when `fold_case`), each path once, as its first listing names
/// it, in the order of first listing.
pub fn tracked_files_from_ls_files(stdout: &Vec<u8>, fold_case: bool) -> (r: Vec<String>)
    ensures
        distinct_paths(r@),
        forall|p: Seq<char>| has_path(r@, p) <==> listed_path(stdout@, fold_case, p),
{
    let fields = split_nul(stdout);
    let mut r: Vec<String> = Vec::new();
    let mut i: usize = 0;
    while i < fields.len()
        invariant
            i <= fields.len(),
            bytes_of(fields@) == nul_fields(stdout@),
            distinct_paths(r@),
            forall|p: Seq<char>| has_path(r@, p) <==> listed_among(fields@, i as int, fold_case, p),
        decreases fields.len() - i,
    {
        if fields[i].len() > 0 {
            let t = decode_lossy(&fields[i]);
            let path = normalize_path(t.as_str(), fold_case);
            assert(path@ == path_key(lossy_text(fields@[i as int]@), fold_case));
            if !contains_path(&r, &path) {
                let ghost before = r@;
                r.push(path);
                proof {
                    assert forall|a: int, b: int| 0 <= a < b < r@.len() implies !same_path(
                        r@[a]@,
                        r@[b]@,
                    ) by {
                        if b == before.len() {
                            assert(!same_path(before[a]@, path@));
                        } else {
                            assert(r@[a] == before[a] && r@[b] == before[b]);
                        }
                    }
                    assert forall|p: Seq<char>| has_path(r@, p) <==> listed_among(
                        fields@,
                        i + 1,
                        fold_case,
                        p,
                    ) by {
                        lemma_has_path_push(before, path, p);
                        if listed_among(fields@, i + 1, fold_case, p) {
                            let k = choose|k: int|
                                0 <= k < i + 1 && k < fields@.len() && fields@[k]@.len() > 0
                                    && #[trigger] same_path(
                                    path_key(lossy_text(fields@[k]@), fold_case),
                                    p,
                                );
                            if k < i {
                                assert(listed_among(fields@, i as int, fold_case, p));
                            }
                        }
                        if listed_among(fields@, i as int, fold_case, p) {
                            let k = choose|k: int|
                                0 <= k < i && k < fields@.len() && fields@[k]@.len() > 0
                                    && #[trigger] same_path(
                                    path_key(lossy_text(fields@[k]@), fold_case),
                                    p,
                                );
                            assert(listed_among(fields@, i + 1, fold_case, p));
                        }
                        if same_path(path@, p) {
                            assert(listed_among(fields@, i + 1, fold_case, p));
                        }
                    }
                }
            } else {
                proof {
                    let j = choose|j: int| 0 <= j < r@.len() && #[trigger] same_path(r@[j]@, path@);
                    assert forall|p: Seq<char>| has_path(r@, p) <==> listed_among(
                        fields@,
                        i + 1,
                        fold_case,
                        p,
                    ) by {
                        if same_path(path@, p) {
                            assert(same_path(r@[j]@, p));
                        }
                        if listed_among(fields@, i + 1, fold_case, p) {
                            let k = choose|k: int|
                                0 <= k < i + 1 && k < fields@.len() && fields@[k]@.len() > 0
                                    && #[trigger] same_path(
                                    path_key(lossy_text(fields@[k]@), fold_case),
                                    p,
                                );
                            if k < i {
                                assert(listed_among(fields@, i as int, fold_case, p));
                            } else {
                                assert(same_path(r@[j]@, p));
                            }
                        }
                        if listed_among(fields@, i as int, fold_case, p) {
                            let k = choose|k: int|
                                0 <= k < i && k < fields@.len() && fields@[k]@.len() > 0
                                    && #[trigger] same_path(
                                    path_key(lossy_text(fields@[k]@), fold_case),
                                    p,
                                );
                            assert(listed_among(fields@, i + 1, fold_case, p));
                        }
                    }
                }
            }
        } else {
            proof {
                assert forall|p: Seq<char>| has_path(r@, p) <==> listed_among(
                    fields@,
                    i + 1,
                    fold_case,
                    p,
                ) by {
                    if listed_among(fields@, i + 1, fold_case, p) {
                        let k = choose|k: int|
                            0 <= k < i + 1 && k < fields@.len() && fields@[k]@.len() > 0
                                && #[trigger] same_path(
                                path_key(lossy_text(fields@[k]@), fold_case),
                                p,
                            );
                        assert(k < i);
                        assert(listed_among(fields@, i as int, fold_case, p));
                    }
                    if listed_among(fields@, i as int, fold_case, p) {
                        let k = choose|k: int|
                            0 <= k < i && k < fields@.len() && fields@[k]@.len() > 0
                                && #[trigger] same_path(
                                path_key(lossy_text(fields@[k]@), fold_case),
                                p,
                            );
                        assert(listed_among(fields@, i + 1, fold_case, p));
                    }
                }
            }
        }
        i = i + 1;
    }
    proof {
        assert forall|p: Seq<char>| has_path(r@, p) <==> listed_path(stdout@, fold_case, p) by {
            if listed_path(stdout@, fold_case, p) {
                let k = choose|k: int|
                    0 <= k < nul_fields(stdout@).len() && nul_fields(stdout@)[k].len() > 0
                        && #[trigger] same_path(
                        path_key(lossy_text(nul_fields(stdout@)[k]), fold_case),
                        p,
                    );
                assert(bytes_of(fields@)[k] == fields@[k]@);
                assert(listed_among(fields@, i as int, fold_case, p));
            }
            if has_path(r@, p) {
                let k = choose|k: int|
                    0 <= k < i && k < fields@.len() && fields@[k]@.len() > 0 && #[trigger] same_path(
                        path_key(lossy_text(fields@[k]@), fold_case),
                        p,
                    );
                assert(bytes_of(fields@)[k] == fields@[k]@);
                assert(nul_fields(stdout@)[k] == fields@[k]@);
            }
        }
    }
    r
}

/// The changed paths of a `git status --porcelain=v2 -z --untracked-files=all`
/// output.
pub fn status_changed_files(stdout: &Vec<u8>) -> (r: Vec<String>)
    ensures
        texts(r@) == status_paths_from(lossy_texts(nul_fields(stdout@)), 0),
{
    let parts = decode_fields(stdout);
    parse_status_paths(&parts)
}

/// The message of a failed git command: `git {command} failed: ` and its
/// error output as text.
pub fn git_failure_message(command: &str, stderr: &Vec<u8>) -> (r: String)
    ensures
        r@ == "git "@ + command@ + " failed: "@ + lossy_text(stderr@),
{
    let mut r = String::from_str("git ");
    r.append(command);
    r.append(" failed: ");
    let detail = decode_lossy(stderr);
    r.append(detail.as_str());
    r
}

} // verus!
