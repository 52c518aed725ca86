//! The parts of an authorship log that statistics read: per-file attestations
//! of line ranges to prompts, sessions or known humans, and the prompt and
//! session records they point to.
use crate::authorship_log::{AgentId, PromptRecord};
use crate::contributors::ContributorStats;
use crate::line_range::LineRange;
use crate::string_map::StringMap;
use vstd::prelude::*;

verus! {

/// One attestation: the lines of a file that the prompt, session or human
/// named by `hash` wrote.
#[derive(Debug, Clone)]
pub struct AttestationEntry {
    pub hash: String,
    pub line_ranges: Vec<LineRange>,
}

impl AttestationEntry {
    pub fn new(hash: String, line_ranges: Vec<LineRange>) -> (r: AttestationEntry)
        ensures
            r.hash == hash,
            r.line_ranges == line_ranges,
    {
        AttestationEntry { hash, line_ranges }
    }
}

/// The attestations of one file.
#[derive(Debug, Clone)]
pub struct FileAttestation {
    pub file_path: String,
    pub entries: Vec<AttestationEntry>,
}

impl FileAttestation {
    pub fn new(file_path: String) -> (r: FileAttestation)
        ensures
            r.file_path == file_path,
            r.entries@ == Seq::<AttestationEntry>::empty(),
    {
        FileAttestation { file_path, entries: Vec::new() }
    }

    pub fn add_entry(&mut self, entry: AttestationEntry)
        ensures
            final(self).file_path == old(self).file_path,
            final(self).entries@ == old(self).entries@.push(entry),
    {
        self.entries.push(entry);
    }
}

/// A coding-agent session that attested lines (entries whose hash starts with
/// `s_`).
#[derive(Debug, Clone)]
pub struct SessionRecord {
    pub agent_id: AgentId,
}

/// Prompt and session records of a log, keyed by their hash.
#[derive(Debug, Clone)]
pub struct AuthorshipMetadata {
    pub prompts: Vec<(String, PromptRecord)>,
    pub sessions: Vec<(String, SessionRecord)>,
    /// Per-developer counts keyed by email, when the log holds them.
    pub contributors: Option<StringMap<ContributorStats>>,
}

/// The attestations of a commit and the records they refer to.
#[derive(Debug, Clone)]
pub struct AuthorshipLog {
    pub attestations: Vec<FileAttestation>,
    pub metadata: AuthorshipMetadata,
}

impl AuthorshipLog {
    /// A log with no attestation and no record.
    pub fn new() -> (r: AuthorshipLog)
        ensures
            r.attestations@ == Seq::<FileAttestation>::empty(),
            r.metadata.prompts@ == Seq::<(String, PromptRecord)>::empty(),
            r.metadata.sessions@ == Seq::<(String, SessionRecord)>::empty(),
            r.metadata.contributors is None,
    {
        AuthorshipLog {
            attestations: Vec::new(),
            metadata: AuthorshipMetadata {
                prompts: Vec::new(),
                sessions: Vec::new(),
                contributors: None,
            },
        }
    }
}

/// The value of the first pair of `pairs` whose key is `key`.
pub open spec fn lookup<V>(pairs: Seq<(String, V)>, key: Seq<char>) -> Option<V>
    decreases pairs.len(),
{
    if pairs.len() == 0 {
        None
    } else if pairs[0].0@ == key {
        Some(pairs[0].1)
    } else {
        lookup(pairs.drop_first(), key)
    }
}

/// Looking a key up gives the value of the first pair with that key.
pub proof fn lemma_lookup_found<V>(pairs: Seq<(String, V)>, key: Seq<char>, i: int)
    requires
        0 <= i < pairs.len(),
        pairs[i].0@ == key,
        forall|k: int| 0 <= k < i ==> pairs[k].0@ != key,
    ensures
        lookup(pairs, key) == Some(pairs[i].1),
    decreases i,
{
    if i > 0 {
        lemma_lookup_found(pairs.drop_first(), key, i - 1);
    }
}

/// Looking up a key that no pair has gives nothing.
pub proof fn lemma_lookup_missing<V>(pairs: Seq<(String, V)>, key: Seq<char>)
    requires
        forall|k: int| 0 <= k < pairs.len() ==> pairs[k].0@ != key,
    ensures
        lookup(pairs, key) == None::<V>,
    decreases pairs.len(),
{
    if pairs.len() > 0 {
        lemma_lookup_missing(pairs.drop_first(), key);
    }
}

/// No key occurs twice.
pub open spec fn unique_keys<V>(pairs: Seq<(String, V)>) -> bool {
    forall|i: int, j: int| 0 <= i < j < pairs.len() ==> pairs[i].0@ != pairs[j].0@
}

/// Some pair of `pairs` is keyed `key`.
pub open spec fn has_key<V>(pairs: Seq<(String, V)>, key: Seq<char>) -> bool {
    exists|i: int| 0 <= i < pairs.len() && #[trigger] pairs[i].0@ == key
}

/// A key is found exactly when some pair holds it; with unique keys, each
/// pair is found by its own key.
pub proof fn lemma_lookup_keys<V>(pairs: Seq<(String, V)>, key: Seq<char>)
    ensures
        lookup(pairs, key) is Some <==> has_key(pairs, key),
        unique_keys(pairs) ==> forall|i: int|
            0 <= i < pairs.len() && #[trigger] pairs[i].0@ == key ==> lookup(pairs, key) == Some(
                pairs[i].1,
            ),
    decreases pairs.len(),
{
    if pairs.len() > 0 {
        lemma_lookup_keys(pairs.drop_first(), key);
        if has_key(pairs, key) && pairs[0].0@ != key {
            let i = choose|i: int| 0 <= i < pairs.len() && #[trigger] pairs[i].0@ == key;
            assert(pairs.drop_first()[i - 1].0@ == key);
        }
        if has_key(pairs.drop_first(), key) {
            let i = choose|i: int|
                0 <= i < pairs.drop_first().len() && #[trigger] pairs.drop_first()[i].0@ == key;
            assert(pairs[i + 1].0@ == key);
        }
        if unique_keys(pairs) {
            assert forall|i: int|
                0 <= i < pairs.len() && #[trigger] pairs[i].0@ == key implies lookup(pairs, key)
                == Some(pairs[i].1) by {
                if i > 0 {
                    assert(pairs.drop_first()[i - 1].0@ == key);
                }
            }
        }
    }
}

/// The index of the first pair keyed `key`, if any.
pub fn find_key<V>(pairs: &Vec<(String, V)>, key: &String) -> (r: Option<usize>)
    ensures
        match r {
            Some(i) => i < pairs.len() && lookup(pairs@, key@) == Some(pairs@[i as int].1),
            None => lookup(pairs@, key@) == None::<V>,
        },
{
    let mut i: usize = 0;
    while i < pairs.len()
        invariant
            i <= pairs.len(),
            forall|k: int| 0 <= k < i ==> pairs@[k].0@ != key@,
        decreases pairs.len() - i,
    {
        if pairs[i].0 == *key {
            proof {
                lemma_lookup_found(pairs@, key@, i as int);
            }
            return Some(i);
        }
        i = i + 1;
    }
    proof {
        lemma_lookup_missing(pairs@, key@);
    }
    None
}

} // verus!
