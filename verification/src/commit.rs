//! The commit codec and the one-hop ancestry walker: decode a compressed
//! commit object into a structured record, re-encode a record into the
//! canonical byte form used for hashing and storage, and load a commit's
//! direct parents from the store.

use crate::compress::{inflate_to_text, zlib_inflate};
use crate::errors::GitObjectError;
use crate::identity::{
    format_identity, lemma_identity_round_trip, parse_identity, GitCommitAuthor, IdentityView,
};
use crate::store::{store_lookup, GitObjectStore, StoreEntryView};
use crate::text::{
    dec_digits, find_char, find_in, has_prefix, join_from, join_lines, lemma_dec_digits_val,
    lemma_find_char_concat, lemma_find_from_as_suffix, lemma_join_split_lines,
    lemma_split_lines_line, prefix_of, split_lines, split_lines_exec, u64_to_dec,
};
use vstd::prelude::*;

verus! {

pub open spec fn commit_prefix() -> Seq<char> {
    seq!['c', 'o', 'm', 'm', 'i', 't', ' ']
}

pub open spec fn tree_line_prefix() -> Seq<char> {
    seq!['t', 'r', 'e', 'e', ' ']
}

pub open spec fn parent_prefix() -> Seq<char> {
    seq!['p', 'a', 'r', 'e', 'n', 't', ' ']
}

pub open spec fn author_prefix() -> Seq<char> {
    seq!['a', 'u', 't', 'h', 'o', 'r', ' ']
}

pub open spec fn committer_prefix() -> Seq<char> {
    seq!['c', 'o', 'm', 'm', 'i', 't', 't', 'e', 'r', ' ']
}

/// The fields a commit's decompressed text carries; the commit's own hash is
/// not among them, it is supplied by the caller.
pub ghost struct CommitParts {
    pub tree_hash: Seq<char>,
    pub parent_hashes: Seq<Seq<char>>,
    pub author: IdentityView,
    pub committer: IdentityView,
    pub message: Seq<char>,
}

/// A whole commit: the caller-supplied hash plus the decoded fields.
pub ghost struct CommitView {
    pub hash: Seq<char>,
    pub tree_hash: Seq<char>,
    pub parent_hashes: Seq<Seq<char>>,
    pub author: IdentityView,
    pub committer: IdentityView,
    pub message: Seq<char>,
}

pub open spec fn commit_view(h: Seq<char>, p: CommitParts) -> CommitView {
    CommitView {
        hash: h,
        tree_hash: p.tree_hash,
        parent_hashes: p.parent_hashes,
        author: p.author,
        committer: p.committer,
        message: p.message,
    }
}

/// First index at or after `i` whose line does not start with `parent `.
pub open spec fn count_parents_from(ls: Seq<Seq<char>>, i: int) -> int
    decreases ls.len() - i,
{
    if i < 0 || i >= ls.len() {
        i
    } else if has_prefix(ls[i], parent_prefix()) {
        count_parents_from(ls, i + 1)
    } else {
        i
    }
}

pub proof fn lemma_count_parents_eq(ls: Seq<Seq<char>>, i: int, k: int)
    requires
        0 <= i <= k <= ls.len(),
        forall|j: int| i <= j < k ==> has_prefix(#[trigger] ls[j], parent_prefix()),
        k < ls.len() ==> !has_prefix(ls[k], parent_prefix()),
    ensures
        count_parents_from(ls, i) == k,
    decreases k - i,
{
    if i < k {
        lemma_count_parents_eq(ls, i + 1, k);
    }
}

/// What a decompressed commit text parses to, line by line: the header line
/// joined by a null byte to the `tree` line, zero or more `parent` lines in
/// order, an author line, a committer line, one discarded separator line, and
/// the remaining lines joined back as the message.
pub open spec fn parse_commit_text(s: Seq<char>) -> Option<CommitParts> {
    let ls = split_lines(s);
    if ls.len() == 0 {
        None
    } else {
        let l0 = ls[0];
        match find_char(l0, '\0') {
            None => None,
            Some(z) => {
                let rest0 = l0.skip(z + 1);
                let seg = match find_char(rest0, '\0') {
                    None => rest0,
                    Some(z2) => rest0.take(z2),
                };
                if !has_prefix(seg, tree_line_prefix()) {
                    None
                } else {
                    let tree_hash = seg.skip(5);
                    let k = count_parents_from(ls, 1);
                    let parents = Seq::new((k - 1) as nat, |j: int| ls[j + 1].skip(7));
                    if k + 1 >= ls.len() {
                        None
                    } else {
                        match parse_identity(ls[k]) {
                            None => None,
                            Some(author) => match parse_identity(ls[k + 1]) {
                                None => None,
                                Some(committer) => {
                                    let message = if k + 3 <= ls.len() {
                                        join_lines(ls.subrange(k + 3, ls.len() as int))
                                    } else {
                                        Seq::empty()
                                    };
                                    Some(
                                        CommitParts {
                                            tree_hash,
                                            parent_hashes: parents,
                                            author,
                                            committer,
                                            message,
                                        },
                                    )
                                },
                            },
                        }
                    }
                }
            },
        }
    }
}

/// What decoding a compressed commit file under a claimed hash yields.
pub open spec fn spec_decode_commit(h: Seq<char>, data: Seq<u8>) -> Result<
    CommitView,
    GitObjectError,
> {
    match zlib_inflate(data) {
        None => Err(GitObjectError::DecompressionError),
        Some(t) => match parse_commit_text(t) {
            None => Err(GitObjectError::InvalidCommitFile),
            Some(p) => Ok(commit_view(h, p)),
        },
    }
}

/// What loading the commit stored under `h` yields: a missing object is a
/// read failure, found bytes are decoded under `h`.
pub open spec fn spec_load_commit(s: Seq<StoreEntryView>, h: Seq<char>) -> Result<
    CommitView,
    GitObjectError,
> {
    match store_lookup(s, h) {
        None => Err(GitObjectError::FileReadError),
        Some(data) => spec_decode_commit(h, data),
    }
}

/// Loading a list of parents, in order, failing fast on the first hash that
/// does not load: its error is the whole result, and nothing partial remains.
pub open spec fn spec_load_parents(s: Seq<StoreEntryView>, hashes: Seq<Seq<char>>) -> Result<
    Seq<CommitView>,
    GitObjectError,
>
    decreases hashes.len(),
{
    if hashes.len() == 0 {
        Ok(Seq::empty())
    } else {
        match spec_load_commit(s, hashes[0]) {
            Err(e) => Err(e),
            Ok(cv) => match spec_load_parents(s, hashes.drop_first()) {
                Err(e) => Err(e),
                Ok(rest) => Ok(seq![cv] + rest),
            },
        }
    }
}

/// A commit record: one tree snapshot, zero or more parents in first-parent
/// order, two identities, and a message. The `hash` field is caller-supplied
/// context and never derived from the content.
#[derive(Clone, Debug, PartialEq)]
pub struct GitCommit {
    pub hash: String,
    pub tree_hash: String,
    pub parent_hashes: Vec<String>,
    pub author: GitCommitAuthor,
    pub committer: GitCommitAuthor,
    pub message: String,
}

impl View for GitCommit {
    type V = CommitView;

    open spec fn view(&self) -> CommitView {
        CommitView {
            hash: self.hash@,
            tree_hash: self.tree_hash@,
            parent_hashes: self.parent_hashes.deep_view(),
            author: self.author@,
            committer: self.committer@,
            message: self.message@,
        }
    }
}

impl DeepView for GitCommit {
    type V = CommitView;

    open spec fn deep_view(&self) -> CommitView {
        self.view()
    }
}

/// The text between the length header's null byte and the end: what the
/// commit's hash is computed over by the surrounding write path.
pub open spec fn commit_content(cv: CommitView) -> Seq<char> {
    tree_line_prefix() + cv.tree_hash + seq!['\n'] + parents_text(cv.parent_hashes)
        + author_prefix() + format_identity(cv.author) + seq!['\n'] + committer_prefix()
        + format_identity(cv.committer) + seq!['\n', '\n'] + cv.message
}

/// One `parent <hash>` line per parent, in order.
pub open spec fn parents_text(ps: Seq<Seq<char>>) -> Seq<char>
    decreases ps.len(),
{
    if ps.len() == 0 {
        Seq::empty()
    } else {
        parent_prefix() + ps[0] + seq!['\n'] + parents_text(ps.drop_first())
    }
}

proof fn lemma_parents_text_push(ps: Seq<Seq<char>>, p: Seq<char>)
    ensures
        parents_text(ps.push(p)) == parents_text(ps) + parent_prefix() + p + seq!['\n'],
    decreases ps.len(),
{
    let w = ps.push(p);
    if ps.len() == 0 {
        assert(w.drop_first() =~= Seq::<Seq<char>>::empty());
        assert(w[0] == p);
        assert(parents_text(w) == parent_prefix() + w[0] + seq!['\n'] + parents_text(
            w.drop_first(),
        ));
        assert(parents_text(w.drop_first()) == Seq::<char>::empty());
        assert(parents_text(ps) == Seq::<char>::empty());
        assert(parents_text(w) =~= parents_text(ps) + parent_prefix() + p + seq!['\n']);
    } else {
        assert(w.drop_first() =~= ps.drop_first().push(p));
        lemma_parents_text_push(ps.drop_first(), p);
        assert(w[0] == ps[0]);
        assert(parents_text(w) == parent_prefix() + w[0] + seq!['\n'] + parents_text(
            w.drop_first(),
        ));
        assert(parents_text(ps) == parent_prefix() + ps[0] + seq!['\n'] + parents_text(
            ps.drop_first(),
        ));
        assert(parents_text(w) =~= parents_text(ps) + parent_prefix() + p + seq!['\n']);
    }
}

/// The byte length written into the header: the length of the content in its
/// UTF-8 encoding, as the platform's word holds it.
pub open spec fn content_byte_len(cv: CommitView) -> nat {
    (vstd::utf8::encode_utf8(commit_content(cv)).len() as usize) as nat
}

/// The canonical bytes of a commit: `commit <len>\0<content>`.
pub open spec fn encode_commit(cv: CommitView) -> Seq<char> {
    commit_prefix() + dec_digits(content_byte_len(cv)) + seq!['\0'] + commit_content(cv)
}

impl GitCommit {
    pub fn new(
        hash: &str,
        tree_hash: &str,
        parent_hashes: &[String],
        author: GitCommitAuthor,
        committer: GitCommitAuthor,
        message: &str,
    ) -> (r: GitCommit)
        ensures
            r@ == (CommitView {
                hash: hash@,
                tree_hash: tree_hash@,
                parent_hashes: parent_hashes.deep_view(),
                author: author@,
                committer: committer@,
                message: message@,
            }),
    {
        let mut parents: Vec<String> = Vec::new();
        let mut j: usize = 0;
        proof {
            assert(parents.deep_view() =~= parent_hashes.deep_view().take(0));
        }
        while j < parent_hashes.len()
            invariant
                0 <= j <= parent_hashes@.len(),
                parents.deep_view() == parent_hashes.deep_view().take(j as int),
            decreases parent_hashes@.len() - j,
        {
            let ghost old_parents = parents.deep_view();
            parents.push(parent_hashes[j].clone());
            proof {
                assert(parents.deep_view() =~= old_parents.push(parent_hashes@[j as int]@));
                assert(parent_hashes.deep_view().take(j + 1) =~= parent_hashes.deep_view().take(
                    j as int,
                ).push(parent_hashes@[j as int]@));
            }
            j += 1;
        }
        let r = GitCommit {
            hash: hash.to_owned(),
            tree_hash: tree_hash.to_owned(),
            parent_hashes: parents,
            author,
            committer,
            message: message.to_owned(),
        };
        proof {
            assert(parent_hashes.deep_view().take(parent_hashes@.len() as int)
                =~= parent_hashes.deep_view());
        }
        r
    }

    pub fn get_hash(&self) -> (r: &String)
        ensures
            r@ == self@.hash,
    {
        &self.hash
    }

    pub fn get_tree_hash(&self) -> (r: &String)
        ensures
            r@ == self@.tree_hash,
    {
        &self.tree_hash
    }

    pub fn get_parent_hashes(&self) -> (r: &Vec<String>)
        ensures
            r.deep_view() == self@.parent_hashes,
    {
        &self.parent_hashes
    }

    pub fn get_author(&self) -> (r: &GitCommitAuthor)
        ensures
            r@ == self@.author,
    {
        &self.author
    }

    pub fn get_committer(&self) -> (r: &GitCommitAuthor)
        ensures
            r@ == self@.committer,
    {
        &self.committer
    }

    pub fn get_message(&self) -> (r: &String)
        ensures
            r@ == self@.message,
    {
        &self.message
    }

    /// Decode the decompressed text of a commit object, under the claimed
    /// hash that names it.
    pub fn from_text(commit_hash: String, text: &str) -> (r: Result<GitCommit, GitObjectError>)
        ensures
            r is Ok <==> parse_commit_text(text@) is Some,
            r matches Ok(c) ==> c@ == commit_view(commit_hash@, parse_commit_text(text@).unwrap()),
            r matches Err(e) ==> e == GitObjectError::InvalidCommitFile,
    {
        let ghost ls = split_lines(text@);
        let lines = split_lines_exec(text);
        let ghost dv = lines.deep_view();
        if lines.len() == 0 {
            return Err(GitObjectError::InvalidCommitFile);
        }
        let l0 = lines[0].as_str();
        proof {
            assert(l0@ == ls[0]);
        }
        let n0 = l0.unicode_len();
        let z = match find_in(l0, 0, '\0') {
            Some(z) => z,
            None => { return Err(GitObjectError::InvalidCommitFile) },
        };
        let ghost rest0 = ls[0].skip(z + 1);
        proof {
            lemma_find_from_as_suffix(l0@, z + 1, '\0');
        }
        let seg = match find_in(l0, z + 1, '\0') {
            Some(z2) => l0.substring_char(z + 1, z2),
            None => l0.substring_char(z + 1, n0),
        };
        proof {
            assert(seg@ =~= match find_char(rest0, '\0') {
                None => rest0,
                Some(z2) => rest0.take(z2),
            });
        }
        proof {
            reveal_strlit("tree ");
            assert("tree "@ =~= tree_line_prefix());
        }
        if !prefix_of(seg, "tree ") {
            return Err(GitObjectError::InvalidCommitFile);
        }
        let tree_hash = seg.substring_char(5, seg.unicode_len()).to_owned();
        proof {
            assert(tree_hash@ =~= seg@.skip(5));
        }
        let mut parents: Vec<String> = Vec::new();
        let mut i: usize = 1;
        proof {
            reveal_strlit("parent ");
            assert("parent "@ =~= parent_prefix());
            assert(parents.deep_view() =~= Seq::new(0nat, |j: int| ls[j + 1].skip(7)));
        }
        while i < lines.len() && prefix_of(lines[i].as_str(), "parent ")
            invariant
                1 <= i <= lines@.len(),
                dv == lines.deep_view(),
                dv == ls,
                "parent "@ == parent_prefix(),
                forall|j: int| 1 <= j < i ==> has_prefix(#[trigger] ls[j], parent_prefix()),
                parents.deep_view() == Seq::new((i - 1) as nat, |j: int| ls[j + 1].skip(7)),
            decreases lines@.len() - i,
        {
            let s = lines[i].as_str();
            let sub = s.substring_char(7, s.unicode_len());
            let ghost old_parents = parents.deep_view();
            parents.push(sub.to_owned());
            proof {
                assert(sub@ =~= ls[i as int].skip(7));
                assert(parents.deep_view() =~= old_parents.push(ls[i as int].skip(7)));
                assert(parents.deep_view() =~= Seq::new(i as nat, |j: int| ls[j + 1].skip(7)));
            }
            i += 1;
        }
        proof {
            lemma_count_parents_eq(ls, 1, i as int);
        }
        if lines.len() - i < 2 {
            return Err(GitObjectError::InvalidCommitFile);
        }
        let author = match GitCommitAuthor::from_string(lines[i].as_str()) {
            Ok(a) => a,
            Err(_) => { return Err(GitObjectError::InvalidCommitFile) },
        };
        let committer = match GitCommitAuthor::from_string(lines[i + 1].as_str()) {
            Ok(a) => a,
            Err(_) => { return Err(GitObjectError::InvalidCommitFile) },
        };
        let message = if lines.len() - i >= 3 {
            join_from(&lines, i + 3)
        } else {
            String::new()
        };
        proof {
            if lines@.len() - i >= 3 {
                assert(message@ == join_lines(ls.subrange(i + 3, ls.len() as int)));
            } else {
                assert(message@ =~= Seq::<char>::empty());
            }
        }
        let r = GitCommit {
            hash: commit_hash,
            tree_hash,
            parent_hashes: parents,
            author,
            committer,
            message,
        };
        proof {
            let p = parse_commit_text(text@).unwrap();
            assert(r@.parent_hashes == p.parent_hashes);
        }
        Ok(r)
    }

    /// Decode a compressed commit object file under the claimed hash.
    pub fn from_encoded_data(commit_hash: String, encoded_file_content: &[u8]) -> (r: Result<
        GitCommit,
        GitObjectError,
    >)
        ensures
            r matches Ok(c) ==> spec_decode_commit(commit_hash@, encoded_file_content@) == Ok::<
                _,
                GitObjectError,
            >(c@),
            r matches Err(e) ==> spec_decode_commit(commit_hash@, encoded_file_content@) == Err::<
                CommitView,
                _,
            >(e),
    {
        match inflate_to_text(encoded_file_content) {
            None => Err(GitObjectError::DecompressionError),
            Some(text) => Self::from_text(commit_hash, text.as_str()),
        }
    }

    /// Load and decode the commit stored under `commit_hash`; a hash with no
    /// stored object is a read failure, checked before decompression.
    pub fn from_hash(store: &GitObjectStore, commit_hash: &str) -> (r: Result<
        GitCommit,
        GitObjectError,
    >)
        ensures
            r matches Ok(c) ==> spec_load_commit(store@, commit_hash@) == Ok::<_, GitObjectError>(
                c@,
            ),
            r matches Err(e) ==> spec_load_commit(store@, commit_hash@) == Err::<CommitView, _>(e),
    {
        match store.get_object(commit_hash) {
            None => Err(GitObjectError::FileReadError),
            Some(data) => Self::from_encoded_data(commit_hash.to_owned(), data.as_slice()),
        }
    }

    /// Load this commit's direct parents, in first-parent order. The first
    /// parent that fails to load or decode aborts the whole call with that
    /// parent's error; parents already loaded are discarded.
    pub fn get_parent_commits(&self, store: &GitObjectStore) -> (r: Result<
        Vec<GitCommit>,
        GitObjectError,
    >)
        ensures
            r matches Ok(v) ==> spec_load_parents(store@, self@.parent_hashes) == Ok::<
                _,
                GitObjectError,
            >(v.deep_view()),
            r matches Err(e) ==> spec_load_parents(store@, self@.parent_hashes) == Err::<
                Seq<CommitView>,
                _,
            >(e),
    {
        let ghost hashes = self@.parent_hashes;
        let mut result: Vec<GitCommit> = Vec::new();
        let mut i: usize = 0;
        proof {
            assert(hashes.skip(0) =~= hashes);
            assert forall|rest: Seq<CommitView>| true implies result.deep_view() + rest
                =~= rest by {}
        }
        while i < self.parent_hashes.len()
            invariant
                0 <= i <= self.parent_hashes@.len(),
                hashes == self@.parent_hashes,
                hashes.len() == self.parent_hashes@.len(),
                spec_load_parents(store@, hashes) == match spec_load_parents(
                    store@,
                    hashes.skip(i as int),
                ) {
                    Err(e) => Err(e),
                    Ok(rest) => Ok(result.deep_view() + rest),
                },
            decreases self.parent_hashes@.len() - i,
        {
            proof {
                assert(hashes.skip(i as int)[0] == hashes[i as int]);
                assert(hashes.skip(i as int).drop_first() =~= hashes.skip(i + 1));
            }
            match GitCommit::from_hash(store, self.parent_hashes[i].as_str()) {
                Err(e) => {
                    return Err(e);
                },
                Ok(c) => {
                    let ghost old_result = result.deep_view();
                    proof {
                        assert(spec_load_commit(store@, hashes[i as int]) == Ok::<
                            _,
                            GitObjectError,
                        >(c@));
                    }
                    result.push(c);
                    proof {
                        assert(result.deep_view() =~= old_result.push(c@));
                        assert forall|rest: Seq<CommitView>| true implies old_result + (seq![c@]
                            + rest) =~= result.deep_view() + rest by {}
                    }
                },
            }
            i += 1;
        }
        proof {
            assert(hashes.skip(i as int).len() == 0);
            assert(result.deep_view() + Seq::<CommitView>::empty() =~= result.deep_view());
        }
        Ok(result)
    }

    /// The canonical bytes of this commit, as text:
    /// `commit <content-byte-length>\0<content>`, the exact form the write
    /// path would compress and hash.
    pub fn encode(&self) -> (r: String)
        ensures
            r@ == encode_commit(self@),
    {
        let mut content = String::new();
        content.append("tree ");
        content.append(self.tree_hash.as_str());
        content.append("\n");
        proof {
            reveal_strlit("tree ");
            reveal_strlit("\n");
            assert(content@ =~= tree_line_prefix() + self@.tree_hash + seq!['\n'] + parents_text(
                self@.parent_hashes.take(0),
            )) by {
                assert(self@.parent_hashes.take(0) =~= Seq::<Seq<char>>::empty());
            }
        }
        let mut j: usize = 0;
        while j < self.parent_hashes.len()
            invariant
                0 <= j <= self.parent_hashes@.len(),
                content@ == tree_line_prefix() + self@.tree_hash + seq!['\n'] + parents_text(
                    self@.parent_hashes.take(j as int),
                ),
            decreases self.parent_hashes@.len() - j,
        {
            content.append("parent ");
            content.append(self.parent_hashes[j].as_str());
            content.append("\n");
            proof {
                reveal_strlit("parent ");
                reveal_strlit("\n");
                lemma_parents_text_push(
                    self@.parent_hashes.take(j as int),
                    self@.parent_hashes[j as int],
                );
                assert(self@.parent_hashes.take(j + 1) =~= self@.parent_hashes.take(
                    j as int,
                ).push(self@.parent_hashes[j as int]));
                assert(content@ =~= tree_line_prefix() + self@.tree_hash + seq!['\n']
                    + parents_text(self@.parent_hashes.take(j + 1)));
            }
            j += 1;
        }
        content.append("author ");
        content.append(self.author.to_string(true).as_str());
        content.append("committer ");
        content.append(self.committer.to_string(false).as_str());
        content.append("\n");
        content.append("\n");
        content.append(self.message.as_str());
        proof {
            reveal_strlit("author ");
            reveal_strlit("committer ");
            reveal_strlit("\n");
            assert(self@.parent_hashes.take(self.parent_hashes@.len() as int)
                =~= self@.parent_hashes);
            assert("author "@ =~= author_prefix());
            assert("committer "@ =~= committer_prefix());
            assert(content@ =~= commit_content(self@));
        }
        let byte_len = content.as_str().len();
        let digits = u64_to_dec(byte_len as u64);
        let mut r = String::new();
        r.append("commit ");
        r.append(digits.as_str());
        r.append("\0");
        r.append(content.as_str());
        proof {
            reveal_strlit("commit ");
            reveal_strlit("\0");
            assert("commit "@ =~= commit_prefix());
            assert("\0"@ =~= seq!['\0']);
            assert(byte_len as nat == content_byte_len(self@));
            assert(r@ =~= encode_commit(self@));
        }
        r
    }
}

// ---------------------------------------------------------------------------
// Laws
// ---------------------------------------------------------------------------

/// The inputs on which a commit can be written and read back unchanged: no
/// newlines or null bytes where a line or the header would be cut short, the
/// name and email free of their own closing delimiters, a timestamp that fits
/// the field, and a message that does not end in a newline (line splitting is
/// lossy for a trailing newline).
pub open spec fn commit_encodable(cv: CommitView) -> bool {
    &&& forall|k: int|
        0 <= k < cv.tree_hash.len() ==> cv.tree_hash[k] != '\n' && cv.tree_hash[k] != '\0'
    &&& forall|j: int, k: int|
        0 <= j < cv.parent_hashes.len() && 0 <= k < cv.parent_hashes[j].len()
            ==> cv.parent_hashes[j][k] != '\n'
    &&& identity_encodable(cv.author)
    &&& identity_encodable(cv.committer)
    &&& cv.message.len() == 0 || cv.message[cv.message.len() - 1] != '\n'
}

pub open spec fn identity_encodable(idv: IdentityView) -> bool {
    &&& forall|k: int| 0 <= k < idv.name.len() ==> idv.name[k] != '<' && idv.name[k] != '\n'
    &&& forall|k: int| 0 <= k < idv.email.len() ==> idv.email[k] != '>' && idv.email[k] != '\n'
    &&& forall|k: int| 0 <= k < idv.timezone.len() ==> idv.timezone[k] != '\n'
    &&& i64::MIN <= idv.date_seconds <= i64::MAX
}

proof fn lemma_format_identity_no_nl(idv: IdentityView)
    requires
        identity_encodable(idv),
    ensures
        forall|k: int| 0 <= k < format_identity(idv).len() ==> format_identity(idv)[k] != '\n',
{
    let f = format_identity(idv);
    let dec = crate::text::dec_int(idv.date_seconds);
    crate::text::lemma_dec_int_chars(idv.date_seconds);
    assert forall|k: int| 0 <= k < f.len() implies f[k] != '\n' by {
        let p1 = idv.name.len() as int;
        let p2 = p1 + 2;
        let p3 = p2 + idv.email.len();
        let p4 = p3 + 2;
        let p5 = p4 + dec.len();
        let p6 = p5 + 1;
        if k < p1 {
            assert(f[k] == idv.name[k]);
        } else if k < p2 {
            assert(f[k] == seq![' ', '<'][k - p1]);
        } else if k < p3 {
            assert(f[k] == idv.email[k - p2]);
        } else if k < p4 {
            assert(f[k] == seq!['>', ' '][k - p3]);
        } else if k < p5 {
            assert(f[k] == dec[k - p4]);
            assert(crate::text::is_digit(f[k]) || f[k] == '-');
        } else if k < p6 {
            assert(f[k] == seq![' '][k - p5]);
        } else {
            assert(f[k] == idv.timezone[k - p6]);
        }
    }
}

/// The lines of the parents region: one line per parent, then the rest.
proof fn lemma_parents_lines(ps: Seq<Seq<char>>, rest: Seq<char>)
    requires
        forall|j: int, k: int|
            0 <= j < ps.len() && 0 <= k < ps[j].len() ==> ps[j][k] != '\n',
    ensures
        split_lines(parents_text(ps) + rest) == Seq::new(
            ps.len(),
            |j: int| parent_prefix() + ps[j],
        ) + split_lines(rest),
    decreases ps.len(),
{
    if ps.len() == 0 {
        assert(parents_text(ps) + rest =~= rest);
        assert(Seq::new(0nat, |j: int| parent_prefix() + ps[j]) + split_lines(rest)
            =~= split_lines(rest));
    } else {
        let line0 = parent_prefix() + ps[0];
        let tail = parents_text(ps.drop_first());
        assert(parents_text(ps) + rest =~= line0 + seq!['\n'] + (tail + rest));
        assert(forall|k: int| 0 <= k < line0.len() ==> line0[k] != '\n') by {
            assert(forall|k: int| 0 <= k < ps[0].len() ==> ps[0][k] != '\n');
        }
        lemma_split_lines_line(line0, tail + rest);
        assert(forall|j: int, k: int|
            0 <= j < ps.drop_first().len() && 0 <= k < ps.drop_first()[j].len()
                ==> ps.drop_first()[j][k] != '\n');
        lemma_parents_lines(ps.drop_first(), rest);
        assert(seq![line0] + (Seq::new(ps.drop_first().len(), |j: int| parent_prefix()
            + ps.drop_first()[j]) + split_lines(rest)) =~= Seq::new(
            ps.len(),
            |j: int| parent_prefix() + ps[j],
        ) + split_lines(rest));
    }
}

/// Law: a commit written in the canonical form reads back with exactly the
/// same tree hash, parents in the same order, author, committer and message;
/// the claimed hash is outside the content and plays no part.
#[verifier::rlimit(100)]
pub proof fn lemma_commit_round_trip(cv: CommitView)
    requires
        commit_encodable(cv),
    ensures
        parse_commit_text(encode_commit(cv)) == Some(
            CommitParts {
                tree_hash: cv.tree_hash,
                parent_hashes: cv.parent_hashes,
                author: cv.author,
                committer: cv.committer,
                message: cv.message,
            },
        ),
{
    let s = encode_commit(cv);
    let dec = dec_digits(content_byte_len(cv));
    lemma_dec_digits_val(content_byte_len(cv));
    let fmt_a = format_identity(cv.author);
    let fmt_c = format_identity(cv.committer);
    lemma_format_identity_no_nl(cv.author);
    lemma_format_identity_no_nl(cv.committer);
    let k = cv.parent_hashes.len() as int;

    // the line structure of the encoded text
    let line0 = commit_prefix() + dec + seq!['\0'] + tree_line_prefix() + cv.tree_hash;
    let line_a = author_prefix() + fmt_a;
    let line_c = committer_prefix() + fmt_c;
    let tail_a = line_a + seq!['\n'] + line_c + seq!['\n'] + (seq!['\n'] + cv.message);
    assert(s =~= line0 + seq!['\n'] + (parents_text(cv.parent_hashes) + tail_a));
    assert(forall|k2: int| 0 <= k2 < line0.len() ==> line0[k2] != '\n') by {
        assert(forall|k2: int|
            0 <= k2 < dec.len() ==> crate::text::is_digit(#[trigger] dec[k2]));
    }
    lemma_split_lines_line(line0, parents_text(cv.parent_hashes) + tail_a);
    lemma_parents_lines(cv.parent_hashes, tail_a);
    assert(forall|k2: int| 0 <= k2 < line_a.len() ==> line_a[k2] != '\n');
    assert(tail_a =~= line_a + seq!['\n'] + (line_c + seq!['\n'] + (seq!['\n'] + cv.message)));
    lemma_split_lines_line(line_a, line_c + seq!['\n'] + (seq!['\n'] + cv.message));
    assert(forall|k2: int| 0 <= k2 < line_c.len() ==> line_c[k2] != '\n');
    lemma_split_lines_line(line_c, seq!['\n'] + cv.message);
    assert(find_char(seq!['\n'] + cv.message, '\n') == Some(0int));
    assert((seq!['\n'] + cv.message).take(0) =~= Seq::<char>::empty());
    assert((seq!['\n'] + cv.message).skip(1) =~= cv.message);
    assert(split_lines(seq!['\n'] + cv.message) == seq![Seq::<char>::empty()] + split_lines(
        cv.message,
    ));
    let ml = split_lines(cv.message);
    let plines = Seq::new(cv.parent_hashes.len(), |j: int| parent_prefix() + cv.parent_hashes[j]);
    let ls = split_lines(s);
    assert(ls =~= seq![line0] + plines + seq![line_a] + (seq![line_c] + (seq![
        Seq::<char>::empty(),
    ] + ml)));
    let ls2 = seq![line0] + plines + seq![line_a] + seq![line_c] + seq![Seq::<char>::empty()] + ml;
    assert(ls =~= ls2);
    assert(ls.len() == k + 4 + ml.len());

    // line 1: header, null byte, tree hash
    assert(ls[0] == line0);
    let a0 = commit_prefix() + dec;
    let b0 = seq!['\0'] + tree_line_prefix() + cv.tree_hash;
    assert(line0 =~= a0 + b0);
    assert(forall|k2: int| 0 <= k2 < a0.len() ==> a0[k2] != '\0') by {
        assert(forall|k2: int|
            0 <= k2 < dec.len() ==> crate::text::is_digit(#[trigger] dec[k2]));
    }
    assert(find_char(b0, '\0') == Some(0int));
    lemma_find_char_concat(a0, b0, '\0');
    assert(find_char(line0, '\0') == Some(a0.len() as int));
    let rest0 = line0.skip(a0.len() as int + 1);
    assert(rest0 =~= tree_line_prefix() + cv.tree_hash);
    assert(forall|k2: int| 0 <= k2 < rest0.len() ==> rest0[k2] != '\0');
    crate::text::lemma_find_char_from_spec(rest0, 0, '\0');
    assert(find_char(rest0, '\0') is None);
    assert(rest0.take(5) =~= tree_line_prefix());
    assert(has_prefix(rest0, tree_line_prefix()));
    assert(rest0.skip(5) =~= cv.tree_hash);

    // the parent lines, then the author line stops the run
    assert(forall|j: int| 1 <= j < k + 1 ==> has_prefix(#[trigger] ls[j], parent_prefix())) by {
        assert forall|j: int| 1 <= j < k + 1 implies has_prefix(
            #[trigger] ls[j],
            parent_prefix(),
        ) by {
            assert(ls[j] == plines[j - 1]);
            assert(plines[j - 1].take(7) =~= parent_prefix());
        }
    }
    assert(ls[k + 1] == line_a);
    assert(!has_prefix(line_a, parent_prefix())) by {
        if has_prefix(line_a, parent_prefix()) {
            assert(line_a.take(7)[0] == parent_prefix()[0]);
        }
    }
    lemma_count_parents_eq(ls, 1, k + 1);
    assert(Seq::new(k as nat, |j: int| ls[j + 1].skip(7)) =~= cv.parent_hashes) by {
        assert forall|j: int| 0 <= j < k implies ls[j + 1].skip(7) =~= cv.parent_hashes[j] by {
            assert(ls[j + 1] == plines[j]);
        }
    }

    // the author line, the committer line
    let role_a = seq!['a', 'u', 't', 'h', 'o', 'r'];
    assert(line_a =~= role_a + seq![' '] + fmt_a);
    lemma_identity_round_trip(role_a, cv.author);
    assert(parse_identity(ls[k + 1]) == Some(cv.author));
    let role_c = seq!['c', 'o', 'm', 'm', 'i', 't', 't', 'e', 'r'];
    assert(line_c =~= role_c + seq![' '] + fmt_c);
    lemma_identity_round_trip(role_c, cv.committer);
    assert(parse_identity(ls[k + 2]) == Some(cv.committer));

    // the blank separator line is skipped, the rest is the message
    assert(ls.subrange(k + 4, ls.len() as int) =~= ml);
    lemma_join_split_lines(cv.message);
}

/// Law: the decompressed text `invalid content` is not a commit; decoding a
/// stream that inflates to it yields a grammar error, never a crash.
pub proof fn lemma_plain_text_not_commit()
    ensures
        parse_commit_text("invalid content"@) is None,
        forall|data: Seq<u8>|
            zlib_inflate(data) == Some("invalid content"@) ==> (#[trigger] spec_decode_commit(
                Seq::<char>::empty(),
                data,
            )) == Err::<CommitView, _>(GitObjectError::InvalidCommitFile),
{
    let s = "invalid content"@;
    reveal_strlit("invalid content");
    assert(s.len() == 15);
    assert forall|k: int| 0 <= k < s.len() implies s[k] != '\n' && s[k] != '\0' by {}
    crate::text::lemma_split_lines_single(s);
    crate::text::lemma_find_char_from_spec(s, 0, '\0');
}

/// Law: loading parents fails fast. If the first `i` parents load and the
/// parent at `i` fails, the whole result is exactly that failure; no partial
/// list survives.
pub proof fn lemma_parents_fail_fast(
    s: Seq<StoreEntryView>,
    hashes: Seq<Seq<char>>,
    i: int,
    e: GitObjectError,
)
    requires
        0 <= i < hashes.len(),
        forall|j: int| 0 <= j < i ==> (#[trigger] spec_load_commit(s, hashes[j])) is Ok,
        spec_load_commit(s, hashes[i]) == Err::<CommitView, _>(e),
    ensures
        spec_load_parents(s, hashes) == Err::<Seq<CommitView>, _>(e),
    decreases i,
{
    if i == 0 {
    } else {
        assert(spec_load_commit(s, hashes[0]) is Ok);
        assert(hashes.drop_first()[i - 1] == hashes[i]);
        assert(forall|j: int|
            0 <= j < i - 1 ==> (#[trigger] spec_load_commit(s, hashes.drop_first()[j])) is Ok)
            by {
            assert(forall|j: int| 0 <= j < i - 1 ==> hashes.drop_first()[j] == hashes[j + 1]);
        }
        lemma_parents_fail_fast(s, hashes.drop_first(), i - 1, e);
    }
}

} // verus!
