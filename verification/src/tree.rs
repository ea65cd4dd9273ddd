//! The tree codec: a tree object is an ordered list of named entries, each
//! pointing to a blob or subtree by hash and carrying a mode token. The
//! decoder preserves on-disk entry order verbatim; there is no tree encoder.

use crate::compress::{inflate_to_text, zlib_inflate};
use crate::errors::GitObjectError;
use crate::store::{store_lookup, GitObjectStore};
use crate::text::{
    dec_digits, find_char, find_in, has_prefix, lemma_find_char_concat, lemma_find_char_from_spec,
    lemma_find_from_as_suffix, str_eq,
};
use vstd::prelude::*;

verus! {

/// The kind and permission of one tree entry, as its six-digit mode token
/// writes it.
#[derive(Debug, Clone, PartialEq, Eq, Structural)]
pub enum GitTreeMode {
    File,
    Executable,
    Symlink,
    Tree,
    Submodule,
}

/// The six-digit token of a mode.
pub open spec fn mode_token(m: GitTreeMode) -> Seq<char> {
    match m {
        GitTreeMode::File => seq!['1', '0', '0', '6', '4', '4'],
        GitTreeMode::Executable => seq!['1', '0', '0', '7', '5', '5'],
        GitTreeMode::Symlink => seq!['1', '2', '0', '0', '0', '0'],
        GitTreeMode::Tree => seq!['0', '4', '0', '0', '0', '0'],
        GitTreeMode::Submodule => seq!['1', '6', '0', '0', '0', '0'],
    }
}

/// The mode a token names, if it is one of the five fixed tokens.
pub open spec fn mode_of_token(s: Seq<char>) -> Option<GitTreeMode> {
    if s == mode_token(GitTreeMode::File) {
        Some(GitTreeMode::File)
    } else if s == mode_token(GitTreeMode::Executable) {
        Some(GitTreeMode::Executable)
    } else if s == mode_token(GitTreeMode::Symlink) {
        Some(GitTreeMode::Symlink)
    } else if s == mode_token(GitTreeMode::Tree) {
        Some(GitTreeMode::Tree)
    } else if s == mode_token(GitTreeMode::Submodule) {
        Some(GitTreeMode::Submodule)
    } else {
        None
    }
}

impl GitTreeMode {
    /// The mode a token names; `None` for an unrecognized token, so that a
    /// malformed file surfaces as a typed error rather than a crash.
    pub fn try_from_mode_str(mode: &str) -> (r: Option<GitTreeMode>)
        ensures
            r == mode_of_token(mode@),
    {
        proof {
            reveal_strlit("100644");
            reveal_strlit("100755");
            reveal_strlit("120000");
            reveal_strlit("040000");
            reveal_strlit("160000");
            assert("100644"@ =~= mode_token(GitTreeMode::File));
            assert("100755"@ =~= mode_token(GitTreeMode::Executable));
            assert("120000"@ =~= mode_token(GitTreeMode::Symlink));
            assert("040000"@ =~= mode_token(GitTreeMode::Tree));
            assert("160000"@ =~= mode_token(GitTreeMode::Submodule));
        }
        if str_eq(mode, "100644") {
            Some(GitTreeMode::File)
        } else if str_eq(mode, "100755") {
            Some(GitTreeMode::Executable)
        } else if str_eq(mode, "120000") {
            Some(GitTreeMode::Symlink)
        } else if str_eq(mode, "040000") {
            Some(GitTreeMode::Tree)
        } else if str_eq(mode, "160000") {
            Some(GitTreeMode::Submodule)
        } else {
            None
        }
    }

    /// The mode one of the five fixed tokens names.
    pub fn from_mode_str(mode: &str) -> (r: GitTreeMode)
        requires
            mode_of_token(mode@) is Some,
        ensures
            Some(r) == mode_of_token(mode@),
    {
        match GitTreeMode::try_from_mode_str(mode) {
            Some(m) => m,
            // dead under the precondition: the token is one of the five
            None => GitTreeMode::File,
        }
    }

    /// The six-digit token of this mode.
    pub fn to_mode_str(&self) -> (r: &str)
        ensures
            r@ == mode_token(*self),
    {
        proof {
            reveal_strlit("100644");
            reveal_strlit("100755");
            reveal_strlit("120000");
            reveal_strlit("040000");
            reveal_strlit("160000");
            assert("100644"@ =~= mode_token(GitTreeMode::File));
            assert("100755"@ =~= mode_token(GitTreeMode::Executable));
            assert("120000"@ =~= mode_token(GitTreeMode::Symlink));
            assert("040000"@ =~= mode_token(GitTreeMode::Tree));
            assert("160000"@ =~= mode_token(GitTreeMode::Submodule));
        }
        match self {
            GitTreeMode::File => "100644",
            GitTreeMode::Executable => "100755",
            GitTreeMode::Symlink => "120000",
            GitTreeMode::Tree => "040000",
            GitTreeMode::Submodule => "160000",
        }
    }

    /// The object kind the mode refers to: `"tree"` for a subtree, `"blob"`
    /// for everything else.
    pub fn kind_str(&self) -> (r: &str)
        ensures
            self is Tree ==> r@ == "tree"@,
            !(self is Tree) ==> r@ == "blob"@,
    {
        match self {
            GitTreeMode::Tree => "tree",
            _ => "blob",
        }
    }
}

/// Law: each of the five fixed mode tokens maps to a mode and back to itself,
/// and each mode's token maps back to that mode.
pub proof fn lemma_mode_round_trip(t: Seq<char>, m: GitTreeMode)
    ensures
        mode_of_token(t) matches Some(m0) ==> mode_token(m0) == t,
        mode_of_token(mode_token(m)) == Some(m),
{
}

/// One entry of a tree: a mode, the hash of what it points to, and its name.
#[derive(Debug, Clone, PartialEq)]
pub struct GitTreeEntry {
    pub mode: GitTreeMode,
    pub hash: String,
    pub name: String,
}

pub ghost struct TreeEntryView {
    pub mode: GitTreeMode,
    pub hash: Seq<char>,
    pub name: Seq<char>,
}

impl View for GitTreeEntry {
    type V = TreeEntryView;

    open spec fn view(&self) -> TreeEntryView {
        TreeEntryView { mode: self.mode, hash: self.hash@, name: self.name@ }
    }
}

impl DeepView for GitTreeEntry {
    type V = TreeEntryView;

    open spec fn deep_view(&self) -> TreeEntryView {
        self.view()
    }
}

pub open spec fn is_ws(c: char) -> bool {
    c == ' ' || c == '\t' || c == '\n' || c == '\r'
}

/// How many whitespace characters the text starts with.
pub open spec fn ws_prefix_len(s: Seq<char>) -> int
    decreases s.len(),
{
    if s.len() == 0 {
        0
    } else if is_ws(s[0]) {
        1 + ws_prefix_len(s.drop_first())
    } else {
        0
    }
}

pub proof fn lemma_ws_prefix_len(s: Seq<char>)
    ensures
        0 <= ws_prefix_len(s) <= s.len(),
        forall|k: int| 0 <= k < ws_prefix_len(s) ==> is_ws(s[k]),
        ws_prefix_len(s) < s.len() ==> !is_ws(s[ws_prefix_len(s)]),
    decreases s.len(),
{
    if s.len() > 0 && is_ws(s[0]) {
        lemma_ws_prefix_len(s.drop_first());
        assert forall|k: int| 0 <= k < ws_prefix_len(s) implies is_ws(s[k]) by {
            if k > 0 {
                assert(s[k] == s.drop_first()[k - 1]);
            }
        }
        if ws_prefix_len(s) < s.len() {
            assert(s[ws_prefix_len(s)] == s.drop_first()[ws_prefix_len(s.drop_first())]);
        }
    }
}

pub open spec fn tree_token() -> Seq<char> {
    seq!['t', 'r', 'e', 'e']
}

/// Whether the first whitespace-separated token of the header is `tree`.
pub open spec fn header_is_tree(h: Seq<char>) -> bool {
    let w = ws_prefix_len(h);
    let t = h.skip(w);
    has_prefix(t, tree_token()) && (t.len() == 4 || is_ws(t[4]))
}

/// The entries written one after the other in the body of a tree object:
/// `<mode> <name>\0<40-character hash>` each, until the body is empty.
pub open spec fn parse_tree_body(s: Seq<char>) -> Option<Seq<TreeEntryView>>
    decreases s.len(),
    via parse_tree_body_decreases
{
    if s.len() == 0 {
        Some(Seq::empty())
    } else {
        match find_char(s, ' ') {
            None => None,
            Some(sp) => {
                let mode_tok = s.take(sp);
                let rest = s.skip(sp + 1);
                match find_char(rest, '\0') {
                    None => None,
                    Some(nl) => {
                        let name = rest.take(nl);
                        let rest2 = rest.skip(nl + 1);
                        if rest2.len() < 40 {
                            None
                        } else {
                            let hash = rest2.take(40);
                            let tail = rest2.skip(40);
                            match mode_of_token(mode_tok) {
                                None => None,
                                Some(m) => match parse_tree_body(tail) {
                                    None => None,
                                    Some(es) => Some(
                                        seq![TreeEntryView { mode: m, hash, name }] + es,
                                    ),
                                },
                            }
                        }
                    },
                }
            },
        }
    }
}

#[via_fn]
proof fn parse_tree_body_decreases(s: Seq<char>) {
    if s.len() > 0 {
        lemma_find_char_from_spec(s, 0, ' ');
        match find_char(s, ' ') {
            None => {},
            Some(sp) => {
                lemma_find_char_from_spec(s.skip(sp + 1), 0, '\0');
            },
        }
    }
}

/// What a decompressed tree object parses to: a header up to the first null
/// byte, whose first token must be `tree`, then the body of entries.
pub open spec fn parse_tree_text(s: Seq<char>) -> Option<Seq<TreeEntryView>> {
    match find_char(s, '\0') {
        None => None,
        Some(i) => {
            let header = s.take(i);
            let body = s.skip(i + 1);
            if header_is_tree(header) {
                parse_tree_body(body)
            } else {
                None
            }
        },
    }
}

/// What decoding a compressed tree file yields.
pub open spec fn spec_decode_tree(data: Seq<u8>) -> Result<Seq<TreeEntryView>, GitObjectError> {
    match zlib_inflate(data) {
        None => Err(GitObjectError::DecompressionError),
        Some(t) => match parse_tree_text(t) {
            None => Err(GitObjectError::InvalidTreeFile),
            Some(es) => Ok(es),
        },
    }
}

/// The first entry named `n`, in decode order.
pub open spec fn find_entry_by_name(es: Seq<TreeEntryView>, n: Seq<char>) -> Option<TreeEntryView>
    decreases es.len(),
{
    if es.len() == 0 {
        None
    } else if es[0].name == n {
        Some(es[0])
    } else {
        find_entry_by_name(es.drop_first(), n)
    }
}

/// The first entry whose hash is `h`, in decode order.
pub open spec fn find_entry_by_hash(es: Seq<TreeEntryView>, h: Seq<char>) -> Option<TreeEntryView>
    decreases es.len(),
{
    if es.len() == 0 {
        None
    } else if es[0].hash == h {
        Some(es[0])
    } else {
        find_entry_by_hash(es.drop_first(), h)
    }
}

/// An ordered list of tree entries, in on-disk (decode) order.
///
/// Entries may be appended after construction to build a tree in memory, but
/// a tree returned by decode should be treated as sealed: there is no tree
/// encoder, so an appended entry has no on-disk form.
#[derive(Debug)]
pub struct GitTree {
    pub entries: Vec<GitTreeEntry>,
}

impl View for GitTree {
    type V = Seq<TreeEntryView>;

    open spec fn view(&self) -> Seq<TreeEntryView> {
        self.entries.deep_view()
    }
}

impl Default for GitTree {
    fn default() -> (r: Self)
        ensures
            r@ == Seq::<TreeEntryView>::empty(),
    {
        Self::new()
    }
}

impl GitTree {
    pub fn new() -> (r: Self)
        ensures
            r@ == Seq::<TreeEntryView>::empty(),
    {
        let r = Self { entries: Vec::new() };
        proof {
            assert(r@ =~= Seq::<TreeEntryView>::empty());
        }
        r
    }

    /// Append one entry; no duplicate-name or duplicate-hash check is made.
    pub fn add_entry(&mut self, mode: GitTreeMode, hash: String, name: String)
        ensures
            final(self)@ == old(self)@.push(TreeEntryView { mode, hash: hash@, name: name@ }),
    {
        let ghost old_view = self@;
        let ghost ev = TreeEntryView { mode, hash: hash@, name: name@ };
        self.entries.push(GitTreeEntry { mode, hash, name });
        proof {
            assert(self@ =~= old_view.push(ev));
        }
    }

    /// The entries, in decode order.
    pub fn entries(&self) -> (r: &Vec<GitTreeEntry>)
        ensures
            r.deep_view() == self@,
    {
        &self.entries
    }

    /// Decode the decompressed text of a tree object.
    pub fn from_text(text: &str) -> (r: Result<Self, GitObjectError>)
        ensures
            r is Ok <==> parse_tree_text(text@) is Some,
            r matches Ok(t) ==> Some(t@) == parse_tree_text(text@),
            r matches Err(e) ==> e == GitObjectError::InvalidTreeFile,
    {
        let n = text.unicode_len();
        let z = match find_in(text, 0, '\0') {
            Some(z) => z,
            None => { return Err(GitObjectError::InvalidTreeFile) },
        };
        let header = text.substring_char(0, z);
        proof {
            assert(header@ =~= text@.take(z as int));
        }
        if !header_token_is_tree(header) {
            return Err(GitObjectError::InvalidTreeFile);
        }
        let ghost body0 = text@.skip(z + 1);
        proof {
            assert(header_is_tree(text@.take(z as int)));
            assert(parse_tree_text(text@) == parse_tree_body(body0));
        }
        let mut tree = Self::new();
        let mut pos: usize = z + 1;
        proof {
            assert(text@.skip(pos as int) =~= body0);
            assert forall|es: Seq<TreeEntryView>| true implies tree@ + es =~= es by {}
        }
        while pos < n
            invariant
                z < pos <= n,
                n == text@.len(),
                body0 == text@.skip(z + 1),
                parse_tree_text(text@) == parse_tree_body(body0),
                parse_tree_body(body0) == match parse_tree_body(text@.skip(pos as int)) {
                    None => None::<Seq<TreeEntryView>>,
                    Some(es) => Some(tree@ + es),
                },
            decreases n - pos,
        {
            let ghost suffix = text@.skip(pos as int);
            proof {
                lemma_find_from_as_suffix(text@, pos as int, ' ');
            }
            let sp = match find_in(text, pos, ' ') {
                Some(sp) => sp,
                None => { return Err(GitObjectError::InvalidTreeFile) },
            };
            let mode_tok = text.substring_char(pos, sp);
            proof {
                assert(find_char(suffix, ' ') == Some(sp - pos as int));
                assert(mode_tok@ =~= suffix.take(sp - pos as int));
                assert(suffix.skip(sp - pos as int + 1) =~= text@.skip(sp + 1));
                lemma_find_from_as_suffix(text@, sp + 1, '\0');
            }
            let nl = match find_in(text, sp + 1, '\0') {
                Some(nl) => nl,
                None => { return Err(GitObjectError::InvalidTreeFile) },
            };
            let name = text.substring_char(sp + 1, nl);
            proof {
                assert(find_char(text@.skip(sp + 1), '\0') == Some(nl - sp - 1));
                assert(name@ =~= text@.skip(sp + 1).take(nl - sp - 1));
                assert(text@.skip(sp + 1).skip(nl - sp as int) =~= text@.skip(nl + 1));
            }
            if n - (nl + 1) < 40 {
                proof {
                    assert(text@.skip(nl + 1).len() < 40);
                }
                return Err(GitObjectError::InvalidTreeFile);
            }
            let hash = text.substring_char(nl + 1, nl + 41);
            proof {
                assert(hash@ =~= text@.skip(nl + 1).take(40));
                assert(text@.skip(nl + 1).skip(40) =~= text@.skip(nl + 41));
            }
            let mode = match GitTreeMode::try_from_mode_str(mode_tok) {
                Some(m) => m,
                None => { return Err(GitObjectError::InvalidTreeFile) },
            };
            let ghost old_tree = tree@;
            tree.add_entry(mode, hash.to_owned(), name.to_owned());
            proof {
                let e = TreeEntryView { mode, hash: hash@, name: name@ };
                assert(parse_tree_body(suffix) == match parse_tree_body(text@.skip(nl + 41)) {
                    None => None::<Seq<TreeEntryView>>,
                    Some(es) => Some(seq![e] + es),
                });
                assert forall|es: Seq<TreeEntryView>| true implies old_tree + (seq![e] + es)
                    =~= tree@ + es by {
                    assert(tree@ =~= old_tree.push(e));
                }
            }
            pos = nl + 41;
        }
        proof {
            assert(text@.skip(pos as int).len() == 0);
            assert(parse_tree_body(text@.skip(pos as int)) == Some(Seq::<TreeEntryView>::empty()));
            assert(tree@ + Seq::<TreeEntryView>::empty() =~= tree@);
        }
        Ok(tree)
    }

    /// Decode a compressed tree object file.
    pub fn from_encoded_data(encoded_data: &[u8]) -> (r: Result<Self, GitObjectError>)
        ensures
            r matches Ok(t) ==> spec_decode_tree(encoded_data@) == Ok::<_, GitObjectError>(t@),
            r matches Err(e) ==> spec_decode_tree(encoded_data@) == Err::<Seq<TreeEntryView>, _>(
                e,
            ),
    {
        match inflate_to_text(encoded_data) {
            None => Err(GitObjectError::DecompressionError),
            Some(text) => Self::from_text(text.as_str()),
        }
    }

    /// Load and decode the tree stored under `hash`; a hash with no stored
    /// object is a read failure.
    pub fn from_hash(store: &GitObjectStore, hash: &str) -> (r: Result<Self, GitObjectError>)
        ensures
            store_lookup(store@, hash@) is None ==> r == Err::<Self, _>(
                GitObjectError::FileReadError,
            ),
            store_lookup(store@, hash@) matches Some(data) ==> {
                &&& r matches Ok(t) ==> spec_decode_tree(data) == Ok::<_, GitObjectError>(t@)
                &&& r matches Err(e) ==> spec_decode_tree(data) == Err::<Seq<TreeEntryView>, _>(e)
            },
    {
        match store.get_object(hash) {
            None => Err(GitObjectError::FileReadError),
            Some(data) => Self::from_encoded_data(data.as_slice()),
        }
    }

    /// The first entry with this name, if any; ties go to decode order.
    pub fn get_entry_by_name(&self, name: &str) -> (r: Option<&GitTreeEntry>)
        ensures
            match r {
                Some(e) => find_entry_by_name(self@, name@) == Some(e@),
                None => find_entry_by_name(self@, name@) is None,
            },
    {
        let mut i: usize = 0;
        proof {
            assert(self@.skip(0) =~= self@);
        }
        while i < self.entries.len()
            invariant
                0 <= i <= self.entries.len(),
                find_entry_by_name(self@, name@) == find_entry_by_name(
                    self@.skip(i as int),
                    name@,
                ),
            decreases self.entries.len() - i,
        {
            proof {
                assert(self@.skip(i as int).drop_first() =~= self@.skip(i + 1));
            }
            if str_eq(self.entries[i].name.as_str(), name) {
                return Some(&self.entries[i]);
            }
            i += 1;
        }
        proof {
            assert(self@.skip(i as int).len() == 0);
        }
        None
    }

    /// The first entry with this hash, if any; ties go to decode order.
    pub fn get_entry_by_hash(&self, hash: &str) -> (r: Option<&GitTreeEntry>)
        ensures
            match r {
                Some(e) => find_entry_by_hash(self@, hash@) == Some(e@),
                None => find_entry_by_hash(self@, hash@) is None,
            },
    {
        let mut i: usize = 0;
        proof {
            assert(self@.skip(0) =~= self@);
        }
        while i < self.entries.len()
            invariant
                0 <= i <= self.entries.len(),
                find_entry_by_hash(self@, hash@) == find_entry_by_hash(
                    self@.skip(i as int),
                    hash@,
                ),
            decreases self.entries.len() - i,
        {
            proof {
                assert(self@.skip(i as int).drop_first() =~= self@.skip(i + 1));
            }
            if str_eq(self.entries[i].hash.as_str(), hash) {
                return Some(&self.entries[i]);
            }
            i += 1;
        }
        proof {
            assert(self@.skip(i as int).len() == 0);
        }
        None
    }

    /// The subtree references, in decode order.
    pub fn get_trees(&self) -> (r: Vec<&GitTreeEntry>)
        ensures
            r.deep_view() == self@.filter(|e: TreeEntryView| e.mode is Tree),
    {
        let mut r: Vec<&GitTreeEntry> = Vec::new();
        let mut i: usize = 0;
        proof {
            reveal(Seq::filter);
            assert(self@.take(0int) =~= Seq::<TreeEntryView>::empty());
            assert(r.deep_view() =~= self@.take(0int).filter(|e: TreeEntryView| e.mode is Tree));
        }
        while i < self.entries.len()
            invariant
                0 <= i <= self.entries.len(),
                r.deep_view() == self@.take(i as int).filter(|e: TreeEntryView| e.mode is Tree),
            decreases self.entries.len() - i,
        {
            let ghost old_r = r.deep_view();
            if matches!(self.entries[i].mode, GitTreeMode::Tree) {
                r.push(&self.entries[i]);
            }
            proof {
                reveal(Seq::filter);
                assert(self@.take(i + 1).drop_last() =~= self@.take(i as int));
                assert(self@.take(i + 1).last() == self@[i as int]);
                if self@[i as int].mode is Tree {
                    assert(r.deep_view() =~= old_r.push(self@[i as int]));
                }
            }
            i += 1;
        }
        proof {
            assert(self@.take(i as int) =~= self@);
        }
        r
    }

    /// The blob, symlink and submodule references, in decode order.
    pub fn get_blobs(&self) -> (r: Vec<&GitTreeEntry>)
        ensures
            r.deep_view() == self@.filter(|e: TreeEntryView| !(e.mode is Tree)),
    {
        let mut r: Vec<&GitTreeEntry> = Vec::new();
        let mut i: usize = 0;
        proof {
            reveal(Seq::filter);
            assert(self@.take(0int) =~= Seq::<TreeEntryView>::empty());
            assert(r.deep_view() =~= self@.take(0int).filter(
                |e: TreeEntryView| !(e.mode is Tree),
            ));
        }
        while i < self.entries.len()
            invariant
                0 <= i <= self.entries.len(),
                r.deep_view() == self@.take(i as int).filter(|e: TreeEntryView| !(e.mode is Tree)),
            decreases self.entries.len() - i,
        {
            let ghost old_r = r.deep_view();
            if !matches!(self.entries[i].mode, GitTreeMode::Tree) {
                r.push(&self.entries[i]);
            }
            proof {
                reveal(Seq::filter);
                assert(self@.take(i + 1).drop_last() =~= self@.take(i as int));
                assert(self@.take(i + 1).last() == self@[i as int]);
                if !(self@[i as int].mode is Tree) {
                    assert(r.deep_view() =~= old_r.push(self@[i as int]));
                }
            }
            i += 1;
        }
        proof {
            assert(self@.take(i as int) =~= self@);
        }
        r
    }
}

fn is_ws_char(c: char) -> (r: bool)
    ensures
        r == is_ws(c),
{
    c == ' ' || c == '\t' || c == '\n' || c == '\r'
}

/// Whether the first whitespace-separated token of the header text is `tree`.
fn header_token_is_tree(h: &str) -> (r: bool)
    ensures
        r == header_is_tree(h@),
{
    proof {
        lemma_ws_prefix_len(h@);
    }
    let n = h.unicode_len();
    let mut i: usize = 0;
    while i < n && is_ws_char(h.get_char(i))
        invariant
            0 <= i <= n,
            n == h@.len(),
            forall|k: int| 0 <= k < i ==> is_ws(h@[k]),
        decreases n - i,
    {
        i += 1;
    }
    proof {
        lemma_ws_prefix_len_eq(h@, i as int);
    }
    let ghost t = h@.skip(i as int);
    if n - i < 4 {
        proof {
            assert(!has_prefix(t, tree_token()));
        }
        return false;
    }
    let ok = h.get_char(i) == 't' && h.get_char(i + 1) == 'r' && h.get_char(i + 2) == 'e'
        && h.get_char(i + 3) == 'e';
    proof {
        assert(t[0] == h@[i as int]);
        assert(t[1] == h@[i + 1]);
        assert(t[2] == h@[i + 2]);
        assert(t[3] == h@[i + 3]);
        if ok {
            assert(t.take(4) =~= tree_token());
        } else {
            assert(t.take(4) != tree_token()) by {
                if t.take(4) == tree_token() {
                    assert(t.take(4)[0] == 't' && t.take(4)[1] == 'r' && t.take(4)[2] == 'e'
                        && t.take(4)[3] == 'e');
                }
            }
        }
    }
    if !ok {
        return false;
    }
    if i + 4 == n {
        true
    } else {
        let c4 = h.get_char(i + 4);
        proof {
            assert(t[4] == h@[i + 4]);
        }
        c4 == ' ' || c4 == '\t' || c4 == '\n' || c4 == '\r'
    }
}

/// The region before position `i` is all whitespace and `i` is its end, so
/// the whitespace prefix has length `i`.
proof fn lemma_ws_prefix_len_eq(s: Seq<char>, i: int)
    requires
        0 <= i <= s.len(),
        forall|k: int| 0 <= k < i ==> is_ws(s[k]),
        i < s.len() ==> !is_ws(s[i]),
    ensures
        ws_prefix_len(s) == i,
    decreases s.len(),
{
    if s.len() > 0 && is_ws(s[0]) {
        assert(i > 0);
        lemma_ws_prefix_len_eq(s.drop_first(), i - 1);
    }
}

// ---------------------------------------------------------------------------
// Laws
// ---------------------------------------------------------------------------

/// The body text that a list of entries is written as; spec-only, since the
/// library provides no tree encoder.
pub open spec fn encode_tree_body(es: Seq<TreeEntryView>) -> Seq<char>
    decreases es.len(),
{
    if es.len() == 0 {
        Seq::empty()
    } else {
        mode_token(es[0].mode) + seq![' '] + es[0].name + seq!['\0'] + es[0].hash
            + encode_tree_body(es.drop_first())
    }
}

/// The full text of a tree object holding the given entries.
pub open spec fn encode_tree_text(es: Seq<TreeEntryView>) -> Seq<char> {
    tree_token() + seq![' '] + dec_digits(encode_tree_body(es).len() as nat) + seq!['\0']
        + encode_tree_body(es)
}

/// An entry the decoder can have produced: a name without null bytes and a
/// hash of exactly 40 characters.
pub open spec fn entry_well_formed(e: TreeEntryView) -> bool {
    &&& forall|k: int| 0 <= k < e.name.len() ==> e.name[k] != '\0'
    &&& e.hash.len() == 40
}

/// Law: the body written for N well-formed entries decodes back to exactly
/// those N entries, in order.
pub proof fn lemma_tree_body_round_trip(es: Seq<TreeEntryView>)
    requires
        forall|j: int| 0 <= j < es.len() ==> entry_well_formed(#[trigger] es[j]),
    ensures
        parse_tree_body(encode_tree_body(es)) == Some(es),
    decreases es.len(),
{
    if es.len() == 0 {
        assert(parse_tree_body(encode_tree_body(es)) == Some(Seq::<TreeEntryView>::empty()));
        assert(es =~= Seq::<TreeEntryView>::empty());
    } else {
        let e = es[0];
        let mt = mode_token(e.mode);
        let tail_text = encode_tree_body(es.drop_first());
        let s = encode_tree_body(es);
        let b1 = seq![' '] + e.name + seq!['\0'] + e.hash + tail_text;
        assert(s =~= mt + b1);
        assert(forall|k: int| 0 <= k < mt.len() ==> mt[k] != ' ');
        assert(find_char(b1, ' ') == Some(0int));
        lemma_find_char_concat(mt, b1, ' ');
        assert(find_char(s, ' ') == Some(mt.len() as int));
        assert(s.take(mt.len() as int) =~= mt);
        let rest = s.skip(mt.len() as int + 1);
        assert(rest =~= e.name + (seq!['\0'] + e.hash + tail_text));
        assert(find_char(seq!['\0'] + e.hash + tail_text, '\0') == Some(0int));
        lemma_find_char_concat(e.name, seq!['\0'] + e.hash + tail_text, '\0');
        assert(find_char(rest, '\0') == Some(e.name.len() as int));
        assert(rest.take(e.name.len() as int) =~= e.name);
        let rest2 = rest.skip(e.name.len() as int + 1);
        assert(rest2 =~= e.hash + tail_text);
        assert(rest2.len() >= 40);
        assert(rest2.take(40) =~= e.hash);
        assert(rest2.skip(40) =~= tail_text);
        assert(mode_of_token(mt) == Some(e.mode));
        assert(forall|j: int| 0 <= j < es.drop_first().len() ==> entry_well_formed(
            #[trigger] es.drop_first()[j],
        ));
        lemma_tree_body_round_trip(es.drop_first());
        assert(seq![TreeEntryView { mode: e.mode, hash: e.hash, name: e.name }] + es.drop_first()
            =~= es);
    }
}

/// Law: the full text of a tree object holding N well-formed entries decodes
/// back to exactly those N entries.
pub proof fn lemma_tree_round_trip(es: Seq<TreeEntryView>)
    requires
        forall|j: int| 0 <= j < es.len() ==> entry_well_formed(#[trigger] es[j]),
    ensures
        parse_tree_text(encode_tree_text(es)) == Some(es),
{
    let header = tree_token() + seq![' '] + dec_digits(encode_tree_body(es).len() as nat);
    let body = encode_tree_body(es);
    let s = encode_tree_text(es);
    assert(s =~= header + (seq!['\0'] + body));
    crate::text::lemma_dec_digits_val(body.len() as nat);
    assert(forall|k: int| 0 <= k < header.len() ==> header[k] != '\0') by {
        assert(forall|k: int|
            0 <= k < dec_digits(body.len() as nat).len() ==> crate::text::is_digit(
                #[trigger] dec_digits(body.len() as nat)[k],
            ));
    }
    assert(find_char(seq!['\0'] + body, '\0') == Some(0int));
    lemma_find_char_concat(header, seq!['\0'] + body, '\0');
    assert(find_char(s, '\0') == Some(header.len() as int));
    assert(s.take(header.len() as int) =~= header);
    assert(s.skip(header.len() as int + 1) =~= body);
    assert(header_is_tree(header)) by {
        assert(!is_ws(header[0]));
        lemma_ws_prefix_len_eq(header, 0);
        assert(header.skip(0) =~= header);
        assert(header.take(4) =~= tree_token());
        assert(is_ws(header[4]));
    }
    lemma_tree_body_round_trip(es);
}

/// Law: the decompressed text `invalid content` is not a tree; decoding a
/// stream that inflates to it yields a grammar error, never a crash.
pub proof fn lemma_plain_text_not_tree()
    ensures
        parse_tree_text("invalid content"@) is None,
        forall|data: Seq<u8>|
            zlib_inflate(data) == Some("invalid content"@) ==> (#[trigger] spec_decode_tree(data))
                == Err::<Seq<TreeEntryView>, _>(GitObjectError::InvalidTreeFile),
{
    let s = "invalid content"@;
    reveal_strlit("invalid content");
    assert(s.len() == 15);
    assert forall|k: int| 0 <= k < s.len() implies s[k] != '\0' by {}
    lemma_find_char_from_spec(s, 0, '\0');
}

/// Law: the subtree references and the leaf references partition the
/// entries: their counts add up to the number of entries.
pub proof fn lemma_tree_partition(es: Seq<TreeEntryView>)
    ensures
        es.filter(|e: TreeEntryView| e.mode is Tree).len() + es.filter(
            |e: TreeEntryView| !(e.mode is Tree),
        ).len() == es.len(),
    decreases es.len(),
{
    reveal(Seq::filter);
    if es.len() > 0 {
        lemma_tree_partition(es.drop_last());
    }
}

} // verus!
