//! Model arguments: local directories and checkpoints of the Hugging Face Hub.
//!
//! ```text
//! runs/x/final                                # a directory
//! convaiinnovations/laya                      # a repository's root checkpoint
//! convaiinnovations/laya/multilingual         # a checkpoint in a sub-folder
//! convaiinnovations/laya@55cf4c4e             # pinned to a revision (branch, tag or commit)
//! ```
//!
//! Here stand the decisions: what an argument names, where the cache is, which files are needed,
//! and what to do next with what the disk and the Hub said. Reading, asking and writing is left
//! to the caller.

use vstd::prelude::*;
use vstd::string::*;

use crate::json::{get, Json, JsonV};
use crate::text::{self, begins_at, chars_of, join_from, parse_nat, replace, same, split, split_once, trim};

verus! {

broadcast use crate::json::lemma_tree;

/// A Hub checkpoint reference: `org/repo[/sub/folder][@revision]`.
#[derive(Debug, PartialEq, Eq)]
pub struct HubRef {
    /// `org/repo`.
    pub repo: String,
    /// Folder inside the repository holding the checkpoint (empty for the root).
    pub subdir: String,
    /// Branch, tag or commit (`main` by default).
    pub revision: String,
}

/// The value of a reference.
#[verifier::ext_equal]
pub struct HubRefV {
    pub repo: Seq<char>,
    pub subdir: Seq<char>,
    pub revision: Seq<char>,
}

impl View for HubRef {
    type V = HubRefV;

    open spec fn view(&self) -> HubRefV {
        HubRefV { repo: self.repo@, subdir: self.subdir@, revision: self.revision@ }
    }
}

/// Whether a character may stand in a Hub name.
pub open spec fn name_char(c: char) -> bool {
    ||| 'a' <= c <= 'z'
    ||| 'A' <= c <= 'Z'
    ||| '0' <= c <= '9'
    ||| c == '-'
    ||| c == '_'
    ||| c == '.'
}

/// Whether a text may be a part of a Hub path.
pub open spec fn name_like(s: Seq<char>) -> bool {
    &&& s.len() > 0
    &&& s != "."@
    &&& s != ".."@
    &&& forall|i: int| 0 <= i < s.len() ==> name_char(#[trigger] s[i])
}

/// The path and the revision of an argument: what stands before and after its first `@`.
pub open spec fn path_and_revision(s: Seq<char>) -> Option<(Seq<char>, Seq<char>)> {
    match text::cut_at(s, '@') {
        Some((p, r)) => if r.len() > 0 {
            Some((p, r))
        } else {
            None
        },
        None => Some((s, "main"@)),
    }
}

/// The reference a text names.
pub open spec fn reference(s: Seq<char>) -> Option<HubRefV> {
    match path_and_revision(s) {
        None => None,
        Some((path, revision)) => {
            let parts = text::pieces(path, '/');
            if parts.len() < 2 || exists|i: int| 0 <= i < parts.len() && !name_like(#[trigger] parts[i]) {
                None
            } else {
                Some(
                    HubRefV {
                        repo: parts[0] + "/"@ + parts[1],
                        subdir: text::joined(parts.skip(2), "/"@),
                        revision,
                    },
                )
            }
        },
    }
}

fn is_name(s: &str) -> (r: bool)
    ensures
        r == name_like(s@),
{
    let v = chars_of(s);
    if v.len() == 0 || same(s, ".") || same(s, "..") {
        return false;
    }
    let mut i: usize = 0;
    while i < v.len()
        invariant
            i <= v@.len(),
            v@ == s@,
            forall|j: int| 0 <= j < i ==> name_char(#[trigger] s@[j]),
        decreases v@.len() - i,
    {
        let c = v[i];
        let ok = ('a' <= c && c <= 'z') || ('A' <= c && c <= 'Z') || ('0' <= c && c <= '9') || c
            == '-' || c == '_' || c == '.';
        if !ok {
            proof {
                assert(!name_char(s@[i as int]));
            }
            return false;
        }
        i += 1;
    }
    true
}

impl HubRefV {
    /// The repository's own name.
    pub open spec fn repo_name(self) -> Seq<char> {
        let parts = text::pieces(self.repo, '/');
        if parts.len() > 1 {
            parts[1]
        } else {
            self.repo
        }
    }

    /// A short name for the checkpoint: the repository's name and the sub-folder.
    pub open spec fn short(self) -> Seq<char> {
        if self.subdir.len() == 0 {
            self.repo_name()
        } else {
            self.repo_name() + "-"@ + text::replaced(self.subdir, "/"@, "-"@)
        }
    }

    /// A file of the checkpoint, as a path in the repository.
    pub open spec fn path_of(self, f: Seq<char>) -> Seq<char> {
        if self.subdir.len() == 0 {
            f
        } else {
            self.subdir + "/"@ + f
        }
    }
}

impl HubRef {
    /// The reference a text names; `None` when it can't be a Hub id.
    pub fn parse(s: &str) -> (r: Option<HubRef>)
        ensures
            match r {
                Some(h) => reference(s@) == Some(h@),
                None => reference(s@) is None,
            },
    {
        let (path, revision) = match split_once(s, '@') {
            Some((p, r)) => {
                if r.as_str().unicode_len() == 0 {
                    return None;
                }
                (p, r)
            },
            None => (s.to_owned(), "main".to_owned()),
        };
        let parts = split(path.as_str(), '/');
        let ghost all = text::texts(parts@);
        if parts.len() < 2 {
            return None;
        }
        let mut i: usize = 0;
        while i < parts.len()
            invariant
                i <= parts@.len(),
                all == text::texts(parts@),
                all == text::pieces(path@, '/'),
                path_and_revision(s@) == Some((path@, revision@)),
                forall|j: int| 0 <= j < i ==> name_like(#[trigger] all[j]),
            decreases parts@.len() - i,
        {
            if !is_name(parts[i].as_str()) {
                proof {
                    assert(!name_like(all[i as int]));
                }
                return None;
            }
            i += 1;
        }
        let mut repo = parts[0].clone();
        repo.append("/");
        repo.append(parts[1].as_str());
        let subdir = join_from(&parts, 2, "/");
        proof {
            assert(all.len() == parts@.len());
        }
        Some(HubRef { repo, subdir, revision })
    }

    /// A short name for the checkpoint, e.g. `laya` or `laya-multilingual`.
    pub fn short_name(&self) -> (r: String)
        ensures
            r@ == self@.short(),
    {
        let parts = split(self.repo.as_str(), '/');
        proof {
            assert(text::texts(parts@).len() == parts@.len());
        }
        let mut r = if parts.len() > 1 {
            parts[1].clone()
        } else {
            self.repo.clone()
        };
        proof {
            if parts@.len() > 1 {
                assert(text::texts(parts@)[1] == r@);
            }
        }
        if self.subdir.as_str().unicode_len() > 0 {
            r.append("-");
            r.append(replace(self.subdir.as_str(), "/", "-").as_str());
        }
        r
    }

    /// A file of the checkpoint, as a path in the repository.
    pub fn file(&self, f: &str) -> (r: String)
        ensures
            r@ == self@.path_of(f@),
    {
        if self.subdir.as_str().unicode_len() == 0 {
            f.to_owned()
        } else {
            let mut r = self.subdir.clone();
            r.append("/");
            r.append(f);
            r
        }
    }
}

/// The parts of a reference's path, of which there are two at least, are names.
proof fn lemma_reference_parts(s: Seq<char>) -> (parts: Seq<Seq<char>>)
    requires
        reference(s) is Some,
    ensures
        ({
            let h = reference(s)->0;
            &&& h.revision.len() > 0
            &&& parts.len() >= 2
            &&& h.repo == parts[0] + "/"@ + parts[1]
            &&& h.subdir == text::joined(parts.skip(2), "/"@)
            &&& forall|i: int| 0 <= i < parts.len() ==> name_like(#[trigger] parts[i])
        }),
{
    reveal_strlit("main");
    let (path, revision) = path_and_revision(s)->0;
    let parts = text::pieces(path, '/');
    assert forall|i: int| 0 <= i < parts.len() implies name_like(#[trigger] parts[i]) by {}
    parts
}

/// A name holds neither a slash nor an at sign.
proof fn lemma_names_are_plain(parts: Seq<Seq<char>>)
    requires
        forall|i: int| 0 <= i < parts.len() ==> name_like(#[trigger] parts[i]),
    ensures
        forall|i: int| 0 <= i < parts.len() ==> !(#[trigger] parts[i]).contains('/'),
        forall|i: int| 0 <= i < parts.len() ==> !(#[trigger] parts[i]).contains('@'),
{
    assert forall|i: int| 0 <= i < parts.len() implies !(#[trigger] parts[i]).contains('/')
        && !parts[i].contains('@') by {
        assert(name_like(parts[i]));
        assert forall|k: int| 0 <= k < parts[i].len() implies parts[i][k] != '/' && parts[i][k]
            != '@' by {
            assert(name_char(parts[i][k]));
        }
    }
}

/// A reference never leads out of its repository: its revision is not empty, its repository has two
/// parts, and no part of it or of its folder is empty, `.` or `..`, or holds a character that has a
/// meaning in paths.
pub proof fn lemma_references_stay_inside(s: Seq<char>, i: int)
    ensures
        reference(s) matches Some(h) ==> {
            let repo = text::pieces(h.repo, '/');
            let folder = text::pieces(h.subdir, '/');
            &&& h.revision.len() > 0
            &&& repo.len() == 2
            &&& 0 <= i < 2 ==> name_like(repo[i])
            &&& h.subdir.len() > 0 && 0 <= i < folder.len() ==> name_like(folder[i])
        },
{
    if reference(s) is Some {
        let h = reference(s)->0;
        let parts = lemma_reference_parts(s);
        lemma_names_are_plain(parts);
        reveal_strlit("/");
        assert("/"@ =~= seq!['/']);
        let two = parts.take(2);
        text::lemma_joined_first(two, seq!['/']);
        assert(text::joined(two.skip(1), seq!['/']) == parts[1]);
        assert(text::joined(two, seq!['/']) =~= parts[0] + seq!['/'] + parts[1]);
        text::lemma_pieces_of_joined(two, '/');
        let rest = parts.skip(2);
        if rest.len() > 0 {
            text::lemma_pieces_of_joined(rest, '/');
        }
    }
}

impl HubRefV {
    /// The reference as text, with its revision.
    pub open spec fn written(self) -> Seq<char> {
        self.repo + (if self.subdir.len() == 0 {
            Seq::empty()
        } else {
            "/"@ + self.subdir
        }) + "@"@ + self.revision
    }
}

/// A reference that is written out and read again is itself.
pub proof fn lemma_reading_gives_back_references(s: Seq<char>)
    ensures
        reference(s) matches Some(h) ==> reference(h.written()) == Some(h),
{
    if reference(s) is Some {
        let h = reference(s)->0;
        let parts = lemma_reference_parts(s);
        lemma_names_are_plain(parts);
        reveal_strlit("/");
        reveal_strlit("@");
        let slash = seq!['/'];
        assert("/"@ =~= slash);
        assert("@"@ =~= seq!['@']);
        let path = text::joined(parts, slash);
        text::lemma_joined_first(parts, slash);
        let rest = parts.skip(2);
        if parts.len() > 2 {
            text::lemma_joined_first(parts.skip(1), slash);
            assert(parts.skip(1).skip(1) =~= rest);
            if rest.len() > 1 {
                text::lemma_joined_first(rest, slash);
            }
            assert(name_like(rest[0])) by {
                assert(rest[0] == parts[2]);
            }
            assert(h.subdir.len() > 0);
            assert(path =~= h.repo + slash + h.subdir);
        } else {
            assert(parts.skip(1).len() == 1);
            assert(h.subdir.len() == 0);
            assert(path =~= h.repo);
        }
        let w = h.written();
        assert(w =~= path + seq!['@'] + h.revision);
        text::lemma_joined_lacks(parts, slash, '@');
        let k = path.len() as int;
        assert forall|i: int| 0 <= i < k implies #[trigger] w[i] != '@' by {
            assert(path.contains(path[i]));
        }
        text::lemma_first_at_is(w, '@', k);
        assert(w.take(k) =~= path);
        assert(w.skip(k + 1) =~= h.revision);
        text::lemma_pieces_of_joined(parts, '/');
    }
}

// ---------------------------------------------------------------------------------------------
// Where things are

/// The environment variables that say where the Hub and its cache are.
pub struct HubEnv {
    pub hf_home: Option<String>,
    pub home: Option<String>,
    pub userprofile: Option<String>,
    pub hf_hub_cache: Option<String>,
    pub huggingface_hub_cache: Option<String>,
    pub hf_endpoint: Option<String>,
    pub hf_token: Option<String>,
    pub hugging_face_hub_token: Option<String>,
    pub hf_token_path: Option<String>,
    pub hf_hub_offline: Option<String>,
}

/// A path: a base, and what is joined to it.
#[derive(Debug, PartialEq, Eq)]
pub struct Place {
    pub base: String,
    pub rest: Vec<String>,
}

/// The value of a path.
#[verifier::ext_equal]
pub struct PlaceV {
    pub base: Seq<char>,
    pub rest: Seq<Seq<char>>,
}

impl View for Place {
    type V = PlaceV;

    open spec fn view(&self) -> PlaceV {
        PlaceV { base: self.base@, rest: text::texts(self.rest@) }
    }
}

/// A variable's value, unless it is unset or empty.
pub open spec fn nonempty(v: Option<String>) -> Option<Seq<char>> {
    match v {
        Some(s) => if s@.len() > 0 {
            Some(s@)
        } else {
            None
        },
        None => None,
    }
}

/// The first that is there.
pub open spec fn first_of(a: Option<Seq<char>>, b: Option<Seq<char>>) -> Option<Seq<char>> {
    match a {
        Some(_) => a,
        None => b,
    }
}

/// The Hugging Face home directory.
pub open spec fn home_place(env: HubEnv) -> PlaceV {
    match nonempty(env.hf_home) {
        Some(p) => PlaceV { base: p, rest: Seq::empty() },
        None => PlaceV {
            base: match first_of(nonempty(env.home), nonempty(env.userprofile)) {
                Some(h) => h,
                None => "."@,
            },
            rest: seq![".cache/huggingface"@],
        },
    }
}

/// The Hugging Face hub cache directory.
pub open spec fn cache_place(env: HubEnv) -> PlaceV {
    match first_of(nonempty(env.hf_hub_cache), nonempty(env.huggingface_hub_cache)) {
        Some(p) => PlaceV { base: p, rest: Seq::empty() },
        None => PlaceV { rest: home_place(env).rest.push("hub"@), ..home_place(env) },
    }
}

fn env_nonempty(v: &Option<String>) -> (r: Option<String>)
    ensures
        match r {
            Some(s) => nonempty(*v) == Some(s@),
            None => nonempty(*v) is None,
        },
{
    match v {
        Some(s) => {
            if s.as_str().unicode_len() > 0 {
                Some(s.clone())
            } else {
                None
            }
        },
        None => None,
    }
}

/// The Hugging Face home directory.
pub fn hf_home(env: &HubEnv) -> (r: Place)
    ensures
        r@ == home_place(*env),
{
    match env_nonempty(&env.hf_home) {
        Some(p) => {
            let rest: Vec<String> = Vec::new();
            proof {
                assert(text::texts(rest@) =~= Seq::empty());
            }
            Place { base: p, rest }
        },
        None => {
            let base = match env_nonempty(&env.home) {
                Some(h) => h,
                None => match env_nonempty(&env.userprofile) {
                    Some(h) => h,
                    None => ".".to_owned(),
                },
            };
            let mut rest: Vec<String> = Vec::new();
            text::texts_push(&mut rest, ".cache/huggingface".to_owned());
            proof {
                assert(text::texts(rest@) =~= seq![".cache/huggingface"@]);
            }
            Place { base, rest }
        },
    }
}

/// The Hugging Face hub cache directory.
pub fn cache_dir(env: &HubEnv) -> (r: Place)
    ensures
        r@ == cache_place(*env),
{
    let given = match env_nonempty(&env.hf_hub_cache) {
        Some(p) => Some(p),
        None => env_nonempty(&env.huggingface_hub_cache),
    };
    match given {
        Some(p) => {
            let rest: Vec<String> = Vec::new();
            proof {
                assert(text::texts(rest@) =~= Seq::empty());
            }
            Place { base: p, rest }
        },
        None => {
            let mut home = hf_home(env);
            text::texts_push(&mut home.rest, "hub".to_owned());
            home
        },
    }
}

/// A text without the slashes at its end.
pub open spec fn without_slashes(s: Seq<char>) -> Seq<char>
    decreases s.len(),
{
    if s.len() > 0 && s.last() == '/' {
        without_slashes(s.drop_last())
    } else {
        s
    }
}

/// The Hub's address.
pub fn endpoint(env: &HubEnv) -> (r: String)
    ensures
        r@ == without_slashes(
            match nonempty(env.hf_endpoint) {
                Some(e) => e,
                None => "https://huggingface.co"@,
            },
        ),
{
    let e = match env_nonempty(&env.hf_endpoint) {
        Some(e) => e,
        None => "https://huggingface.co".to_owned(),
    };
    let v = chars_of(e.as_str());
    let mut n: usize = v.len();
    proof {
        assert(v@.take(n as int) =~= v@);
    }
    while n > 0 && v[n - 1] == '/'
        invariant
            n <= v@.len(),
            without_slashes(v@.take(n as int)) == without_slashes(v@),
        decreases n,
    {
        proof {
            assert(v@.take(n as int).drop_last() =~= v@.take(n - 1));
        }
        n -= 1;
    }
    let r = text::text_of(&v, 0, n);
    proof {
        assert(r@ =~= v@.take(n as int));
    }
    r
}

/// Where the token for private repositories comes from.
#[derive(Debug, PartialEq, Eq)]
pub enum TokenSource {
    Given(String),
    File(Place),
}

/// Where the token comes from: a variable, or the file that a login saved.
pub fn token_source(env: &HubEnv) -> (r: TokenSource)
    ensures
        match first_of(nonempty(env.hf_token), nonempty(env.hugging_face_hub_token)) {
            Some(t) => r matches TokenSource::Given(s) && s@ == t,
            None => r matches TokenSource::File(p) && p@ == (match nonempty(env.hf_token_path) {
                Some(f) => PlaceV { base: f, rest: Seq::empty() },
                None => PlaceV { rest: home_place(*env).rest.push("token"@), ..home_place(*env) },
            }),
        },
{
    let given = match env_nonempty(&env.hf_token) {
        Some(t) => Some(t),
        None => env_nonempty(&env.hugging_face_hub_token),
    };
    match given {
        Some(t) => TokenSource::Given(t),
        None => match env_nonempty(&env.hf_token_path) {
            Some(f) => {
                let rest: Vec<String> = Vec::new();
                proof {
                    assert(text::texts(rest@) =~= Seq::empty());
                }
                TokenSource::File(Place { base: f, rest })
            },
            None => {
                let mut home = hf_home(env);
                text::texts_push(&mut home.rest, "token".to_owned());
                TokenSource::File(home)
            },
        },
    }
}

/// The token a file holds: its text without the white space around it, if any is left.
pub fn token_in(file: &str) -> (r: Option<String>)
    ensures
        match r {
            Some(t) => t@ == text::trimmed(file@) && t@.len() > 0,
            None => text::trimmed(file@).len() == 0,
        },
{
    let t = trim(file);
    if t.as_str().unicode_len() > 0 {
        Some(t)
    } else {
        None
    }
}

/// Whether the Hub may not be asked.
pub open spec fn is_offline(env: HubEnv) -> bool {
    match nonempty(env.hf_hub_offline) {
        Some(v) => v != "0"@ && v != "false"@ && v != "False"@,
        None => false,
    }
}

/// Whether the Hub may not be asked.
pub fn offline(env: &HubEnv) -> (r: bool)
    ensures
        r == is_offline(*env),
{
    match env_nonempty(&env.hf_hub_offline) {
        Some(v) => !same(v.as_str(), "0") && !same(v.as_str(), "false") && !same(
            v.as_str(),
            "False",
        ),
        None => false,
    }
}

/// Whether a character is a hexadecimal digit.
pub open spec fn hex_char(c: char) -> bool {
    ||| '0' <= c <= '9'
    ||| 'a' <= c <= 'f'
    ||| 'A' <= c <= 'F'
}

/// Whether a revision is a commit: 40 hexadecimal digits.
pub open spec fn commit_like(rev: Seq<char>) -> bool {
    &&& rev.len() == 40
    &&& forall|i: int| 0 <= i < rev.len() ==> hex_char(#[trigger] rev[i])
}

/// Whether a revision is a commit.
pub fn is_commit(rev: &str) -> (r: bool)
    ensures
        r == commit_like(rev@),
{
    let v = chars_of(rev);
    if v.len() != 40 {
        return false;
    }
    let mut i: usize = 0;
    while i < v.len()
        invariant
            i <= v@.len(),
            v@ == rev@,
            forall|j: int| 0 <= j < i ==> hex_char(#[trigger] rev@[j]),
        decreases v@.len() - i,
    {
        let c = v[i];
        let ok = ('0' <= c && c <= '9') || ('a' <= c && c <= 'f') || ('A' <= c && c <= 'F');
        if !ok {
            proof {
                assert(!hex_char(rev@[i as int]));
            }
            return false;
        }
        i += 1;
    }
    true
}

// ---------------------------------------------------------------------------------------------
// Fetching a checkpoint

/// The files of a checkpoint: those it needs, then those it uses when present.
pub open spec fn checkpoint_list() -> Seq<(Seq<char>, bool)> {
    seq![
        ("rl_agent_config.json"@, true),
        ("model.safetensors"@, true),
        ("encoder/config.json"@, true),
        ("tokenizer/tokenizer.json"@, true),
        ("tokenizer/tokenizer_config.json"@, false),
        ("tokenizer/special_tokens_map.json"@, false),
    ]
}

/// Files with whether they are required.
pub open spec fn file_values(v: Seq<(String, bool)>) -> Seq<(Seq<char>, bool)> {
    Seq::new(v.len(), |i: int| (v[i].0@, v[i].1))
}

/// A checkpoint's files, as paths in its repository.
pub open spec fn checkpoint_paths(h: HubRefV) -> Seq<(Seq<char>, bool)> {
    Seq::new(
        checkpoint_list().len(),
        |i: int| (h.path_of(checkpoint_list()[i].0), checkpoint_list()[i].1),
    )
}

fn push_file(v: &mut Vec<(String, bool)>, f: String, required: bool)
    ensures
        file_values(final(v)@) == file_values(old(v)@).push((f@, required)),
{
    let ghost before = file_values(v@);
    let ghost value = (f@, required);
    v.push((f, required));
    proof {
        assert(file_values(v@) =~= before.push(value));
    }
}

impl HubRef {
    /// A checkpoint's files, as paths in its repository, with whether each is required.
    pub fn files(&self) -> (r: Vec<(String, bool)>)
        ensures
            file_values(r@) == checkpoint_paths(self@),
    {
        let mut r: Vec<(String, bool)> = Vec::new();
        push_file(&mut r, self.file("rl_agent_config.json"), true);
        push_file(&mut r, self.file("model.safetensors"), true);
        push_file(&mut r, self.file("encoder/config.json"), true);
        push_file(&mut r, self.file("tokenizer/tokenizer.json"), true);
        push_file(&mut r, self.file("tokenizer/tokenizer_config.json"), false);
        push_file(&mut r, self.file("tokenizer/special_tokens_map.json"), false);
        proof {
            assert(file_values(r@) =~= checkpoint_paths(self@));
        }
        r
    }

    /// The folder of the repository in the cache.
    pub fn cache_folder(&self) -> (r: String)
        ensures
            r@ == "models--"@ + text::replaced(self@.repo, "/"@, "--"@),
    {
        let mut r = "models--".to_owned();
        r.append(replace(self.repo.as_str(), "/", "--").as_str());
        r
    }

    /// The commit that the cache knows a revision by: the revision itself when it is a commit,
    /// else what the file of that revision says.
    pub fn cached_commit(&self, ref_text: Option<String>) -> (r: Option<String>)
        ensures
            match r {
                Some(c) => known_commit(self@, ref_text) == Some(c@),
                None => known_commit(self@, ref_text) is None,
            },
    {
        if is_commit(self.revision.as_str()) {
            return Some(self.revision.clone());
        }
        match ref_text {
            Some(t) => Some(trim(t.as_str())),
            None => None,
        }
    }
}

/// The commit that the cache knows a revision by.
pub open spec fn known_commit(h: HubRefV, ref_text: Option<String>) -> Option<Seq<char>> {
    if commit_like(h.revision) {
        Some(h.revision)
    } else {
        match ref_text {
            Some(t) => Some(text::trimmed(t@)),
            None => None,
        }
    }
}

/// What to do for a checkpoint before anything is asked.
#[derive(Debug, PartialEq, Eq)]
pub enum Start {
    /// Use the cached snapshot of this commit.
    Cached(String),
    /// Fail: the Hub may not be asked and the cache does not have it.
    Offline,
    /// Ask the Hub which commit the revision is, at this address.
    Ask(String),
    /// Fetch the missing files of this commit.
    Download(String),
}

/// What to do for a checkpoint before anything is asked.
pub open spec fn started(
    h: HubRefV,
    base: Seq<char>,
    offline: bool,
    cached: Option<Seq<char>>,
    r: Start,
) -> bool {
    match cached {
        Some(c) if offline || commit_like(h.revision) => r matches Start::Cached(s) && s@ == c,
        _ => if offline {
            r is Offline
        } else if commit_like(h.revision) {
            r matches Start::Download(c) && c@ == h.revision
        } else {
            r matches Start::Ask(u) && u@ == base + "/api/models/"@ + h.repo + "/revision/"@
                + h.revision
        },
    }
}

/// A text that may be absent.
pub open spec fn maybe_text(v: Option<String>) -> Option<Seq<char>> {
    match v {
        Some(s) => Some(s@),
        None => None,
    }
}

/// What to do for a checkpoint, given the commit whose required files the cache has. Offline, or
/// with a commit already in the cache, nothing is asked.
pub fn start(hub: &HubRef, base: &str, offline: bool, cached: &Option<String>) -> (r: Start)
    ensures
        started(hub@, base@, offline, maybe_text(*cached), r),
{
    let pinned = is_commit(hub.revision.as_str());
    match cached {
        Some(c) => {
            if offline || pinned {
                return Start::Cached(c.clone());
            }
        },
        None => {},
    }
    if offline {
        return Start::Offline;
    }
    if pinned {
        return Start::Download(hub.revision.clone());
    }
    let mut u = base.to_owned();
    u.append("/api/models/");
    u.append(hub.repo.as_str());
    u.append("/revision/");
    u.append(hub.revision.as_str());
    Start::Ask(u)
}

/// What is said when the Hub may not be asked and the cache does not have a checkpoint.
pub fn offline_message(hub: &HubRef, cache: &str) -> (r: String)
    ensures
        r@ == "HF_HUB_OFFLINE is set and "@ + hub@.repo + " ("@ + hub@.revision
            + ") is not in the cache at "@ + cache@,
{
    let mut r = "HF_HUB_OFFLINE is set and ".to_owned();
    r.append(hub.repo.as_str());
    r.append(" (");
    r.append(hub.revision.as_str());
    r.append(") is not in the cache at ");
    r.append(cache);
    r
}

/// What to do once the Hub was asked for a revision.
#[derive(Debug, PartialEq, Eq)]
pub enum Answer {
    /// Fetch the missing files of this commit.
    Download(String),
    /// The Hub can't be reached: use the cached snapshot of this commit.
    Cached(String),
    /// Fail: the reply names no commit.
    NoSha,
    /// Fail: the Hub can't be reached and the cache does not have it.
    Failed,
}

/// The commit a reply names.
pub open spec fn sha_of(reply: JsonV) -> Option<Seq<char>> {
    match reply {
        JsonV::Object(o) => match crate::json::member(o, "sha"@) {
            Some(JsonV::String(s)) => Some(s),
            _ => None,
        },
        _ => None,
    }
}

/// What to do with the Hub's reply (`None` when it can't be reached), given the commit whose
/// required files the cache has.
pub fn answered(reply: Option<&Json>, cached: &Option<String>) -> (r: Answer)
    ensures
        match reply {
            Some(v) => match sha_of(v@) {
                Some(c) => r matches Answer::Download(s) && s@ == c,
                None => r is NoSha,
            },
            None => match maybe_text(*cached) {
                Some(c) => r matches Answer::Cached(s) && s@ == c,
                None => r is Failed,
            },
        },
{
    match reply {
        Some(Json::Object(o)) => match get(o, "sha") {
            Some(Json::String(s)) => Answer::Download(s.clone()),
            _ => Answer::NoSha,
        },
        Some(_) => Answer::NoSha,
        None => match cached {
            Some(c) => Answer::Cached(c.clone()),
            None => Answer::Failed,
        },
    }
}

/// The address of a file of a commit.
pub fn file_url(hub: &HubRef, base: &str, commit: &str, path: &str) -> (r: String)
    ensures
        r@ == base@ + "/"@ + hub@.repo + "/resolve/"@ + commit@ + "/"@ + path@,
{
    let mut r = base.to_owned();
    r.append("/");
    r.append(hub.repo.as_str());
    r.append("/resolve/");
    r.append(commit);
    r.append("/");
    r.append(path);
    r
}

/// Whether a text stands somewhere in another.
pub open spec fn has_text(s: Seq<char>, p: Seq<char>) -> bool {
    exists|i: int| 0 <= i <= s.len() && text::begins(#[trigger] s.skip(i), p)
}

fn contains(s: &str, p: &str) -> (r: bool)
    ensures
        r == has_text(s@, p@),
{
    let v = chars_of(s);
    let q = chars_of(p);
    let n: usize = v.len();
    let mut i: usize = 0;
    loop
        invariant
            v@ == s@,
            q@ == p@,
            n == v@.len(),
            i <= n,
            forall|j: int| 0 <= j < i ==> !text::begins(#[trigger] s@.skip(j), p@),
        decreases n - i,
    {
        if begins_at(&v, i, &q) {
            proof {
                assert(text::begins(s@.skip(i as int), p@));
            }
            return true;
        }
        if i == n {
            return false;
        }
        i += 1;
    }
}

/// Whether a file may be missing: one that is not required, and that the Hub does not have.
pub fn may_be_missing(required: bool, error: &str) -> (r: bool)
    ensures
        r == (!required && has_text(error@, "HTTP 404"@)),
{
    !required && contains(error, "HTTP 404")
}

/// What is said of a request that the Hub refused, where it is one of the usual cases.
pub fn refusal(url: &str, code: u16) -> (r: Option<String>)
    ensures
        match r {
            Some(m) => {
                ||| (code == 401 || code == 403) && m@ == url@ + ": HTTP "@ + text::dec(code as nat)
                    + "; for a private or gated repository set HF_TOKEN or run `huggingface-cli login`"@
                ||| code == 404 && m@ == url@ + ": not found (HTTP 404)"@
            },
            None => code != 401 && code != 403 && code != 404,
        },
{
    if code == 401 || code == 403 {
        let mut m = url.to_owned();
        m.append(": HTTP ");
        m.append(text::decimal(code as u64).as_str());
        m.append("; for a private or gated repository set HF_TOKEN or run `huggingface-cli login`");
        Some(m)
    } else if code == 404 {
        let mut m = url.to_owned();
        m.append(": not found (HTTP 404)");
        Some(m)
    } else {
        None
    }
}

/// Offline, the Hub is never asked; and a commit is never looked up.
pub proof fn lemma_offline_asks_nothing(
    h: HubRefV,
    base: Seq<char>,
    offline: bool,
    cached: Option<Seq<char>>,
    r: Start,
)
    requires
        started(h, base, offline, cached, r),
    ensures
        offline ==> r is Cached || r is Offline,
        commit_like(h.revision) ==> !(r is Ask),
        r is Cached ==> cached is Some,
{
}

/// The length a reply announces.
pub fn announced_length(header: Option<&str>) -> (r: Option<u64>)
    ensures
        match header {
            Some(h) => match r {
                Some(n) => text::read_nat(h@, u64::MAX as nat) == Some(n as nat),
                None => text::read_nat(h@, u64::MAX as nat) is None,
            },
            None => r is None,
        },
{
    match header {
        Some(h) => parse_nat(h, u64::MAX),
        None => None,
    }
}

/// Files longer than this show how far they are.
pub const SHOW_PROGRESS: u64 = 52_428_800;

/// How far a download is, in whole percents.
pub open spec fn percent(done: nat, total: nat) -> nat {
    done * 100 / total
}

/// How far a download is shown to be, when that is to be shown anew.
pub open spec fn shown_next(total: Option<u64>, done: nat, shown: nat) -> Option<nat> {
    match total {
        Some(t) if t > SHOW_PROGRESS => {
            let p = percent(done, t as nat);
            if p >= shown + 10 {
                Some((p - p % 10) as nat)
            } else {
                None
            }
        },
        _ => None,
    }
}

/// Progress is shown of large downloads only, in tens, never twice the same, and never ahead of what
/// was done.
pub proof fn lemma_progress_is_shown_in_tens(total: Option<u64>, done: nat, shown: nat)
    ensures
        shown_next(total, done, shown) matches Some(n) ==> {
            &&& total matches Some(t) && t > 50 * 1024 * 1024
            &&& n % 10 == 0
            &&& n + 9 >= percent(done, total->0 as nat) >= n
            &&& n > shown
        },
        total matches Some(t) ==> t > 50 * 1024 * 1024 && percent(done, t as nat) >= shown + 10
            ==> shown_next(total, done, shown) is Some,
        total is None ==> shown_next(total, done, shown) is None,
{
}

/// The progress to show next: for large files only, when it is ten percents past what was shown.
pub fn progress(total: Option<u64>, done: u64, shown: u64) -> (r: Option<u64>)
    ensures
        match total {
            Some(t) if t > SHOW_PROGRESS => {
                let p = percent(done as nat, t as nat);
                if p >= shown + 10 {
                    r == Some((p - p % 10) as u64)
                } else {
                    r is None
                }
            },
            _ => r is None,
        },
        match r {
            Some(n) => shown_next(total, done as nat, shown as nat) == Some(n as nat),
            None => shown_next(total, done as nat, shown as nat) is None,
        },
{
    match total {
        Some(t) => {
            if t > SHOW_PROGRESS {
                let p: u128 = done as u128 * 100 / t as u128;
                proof {
                    assert(done as int * 100 / (t as int) <= done as int) by (nonlinear_arith)
                        requires
                            0 <= done,
                            t >= 100,
                    ;
                }
                if p >= shown as u128 + 10 {
                    return Some((p - p % 10) as u64);
                }
            }
            None
        },
        None => None,
    }
}

/// A model argument resolved to a directory.
#[derive(Debug, PartialEq, Eq)]
pub struct Resolved {
    pub dir: String,
    /// Default serving name: the directory's name, or the checkpoint's short name.
    pub name: String,
    /// The Hub checkpoint and the commit it resolved to, for Hub ids.
    pub hub: Option<(HubRef, String)>,
}

impl Resolved {
    /// A local directory, served under its own name.
    pub fn local(dir: String, file_name: Option<String>) -> (r: Resolved)
        ensures
            r.dir == dir,
            r.name@ == (match file_name {
                Some(n) => n@,
                None => "candle-rlcd"@,
            }),
            r.hub is None,
    {
        Resolved {
            dir,
            name: match file_name {
                Some(n) => n,
                None => "candle-rlcd".to_owned(),
            },
            hub: None,
        }
    }

    /// A Hub checkpoint, served under its short name.
    pub fn fetched(hub: HubRef, dir: String, commit: String) -> (r: Resolved)
        ensures
            r.dir == dir,
            r.name@ == hub@.short(),
            r.hub matches Some((h, c)) && h == hub && c == commit,
    {
        Resolved { dir, name: hub.short_name(), hub: Some((hub, commit)) }
    }
}

// ---------------------------------------------------------------------------------------------
// Where things are

/// Trailing slashes are dropped and nothing else.
pub proof fn lemma_slashes_are_dropped(s: Seq<char>)
    ensures
        without_slashes(s + seq!['/']) == without_slashes(s),
        s.len() == 0 || s.last() != '/' ==> without_slashes(s) == s,
        without_slashes(s).len() > 0 ==> without_slashes(s).last() != '/',
        without_slashes(s).len() <= s.len(),
        without_slashes(s) == s.take(without_slashes(s).len() as int),
    decreases s.len(),
{
    assert((s + seq!['/']).drop_last() =~= s);
    assert((s + seq!['/']).last() == '/');
    if s.len() > 0 && s.last() == '/' {
        let t = s.drop_last();
        lemma_slashes_are_dropped(t);
        let n = without_slashes(t).len() as int;
        assert(t.take(n) =~= s.take(n));
    } else {
        assert(s.take(s.len() as int) =~= s);
    }
}

/// A variable that is set to something goes before one that is asked after it; the cache is where
/// its own variables say, else `hub` under the home of the Hub, which is where its variable says,
/// else `.cache/huggingface` under the user's home.
pub proof fn lemma_places_follow_their_variables(env: HubEnv)
    ensures
        nonempty(env.hf_hub_cache) matches Some(p) ==> cache_place(env) == (PlaceV {
            base: p,
            rest: Seq::empty(),
        }),
        nonempty(env.hf_hub_cache) is None ==> (nonempty(env.huggingface_hub_cache) matches Some(p)
            ==> cache_place(env) == (PlaceV { base: p, rest: Seq::empty() })),
        nonempty(env.hf_hub_cache) is None && nonempty(env.huggingface_hub_cache) is None ==> {
            &&& nonempty(env.hf_home) matches Some(p) ==> cache_place(env) == (PlaceV {
                base: p,
                rest: seq!["hub"@],
            })
            &&& nonempty(env.hf_home) is None ==> cache_place(env).rest == seq![
                ".cache/huggingface"@,
                "hub"@,
            ]
            &&& nonempty(env.hf_home) is None ==> (nonempty(env.home) matches Some(h)
                ==> cache_place(env).base == h)
            &&& nonempty(env.hf_home) is None && nonempty(env.home) is None ==> (nonempty(
                env.userprofile,
            ) matches Some(h) ==> cache_place(env).base == h)
        },
        nonempty(env.hf_home) matches Some(p) ==> home_place(env).base == p && home_place(
            env,
        ).rest.len() == 0,
        nonempty(env.hf_home) is None ==> home_place(env).rest == seq![".cache/huggingface"@],
{
    assert(Seq::<Seq<char>>::empty().push("hub"@) =~= seq!["hub"@]);
    assert(seq![".cache/huggingface"@].push("hub"@) =~= seq![".cache/huggingface"@, "hub"@]);
}

/// A variable that is empty is as good as none.
pub proof fn lemma_empty_variables_are_none(v: Option<String>)
    ensures
        nonempty(v) is Some <==> v is Some && v->0@.len() > 0,
        nonempty(v) matches Some(s) ==> v is Some && s == v->0@,
{
}

/// The Hub is not asked when `HF_HUB_OFFLINE` is set, unless to something that says no.
pub proof fn lemma_offline_is_switched_by_its_variable(env: HubEnv)
    ensures
        nonempty(env.hf_hub_offline) is None ==> !is_offline(env),
        nonempty(env.hf_hub_offline) == Some("1"@) ==> is_offline(env),
        nonempty(env.hf_hub_offline) == Some("true"@) ==> is_offline(env),
        nonempty(env.hf_hub_offline) == Some("0"@) ==> !is_offline(env),
        nonempty(env.hf_hub_offline) == Some("false"@) ==> !is_offline(env),
        nonempty(env.hf_hub_offline) == Some("False"@) ==> !is_offline(env),
{
    reveal_strlit("1");
    reveal_strlit("0");
    reveal_strlit("true");
    reveal_strlit("false");
    reveal_strlit("False");
    assert("1"@.len() == 1);
    assert("0"@.len() == 1);
    assert("true"@.len() == 4);
    assert("false"@.len() == 5);
    assert("False"@.len() == 5);
    assert("0"@[0] == '0');
    assert("1"@[0] == '1');
    assert("False"@[0] == 'F');
    assert("false"@[0] == 'f');
}

/// A file of a model lies under the model's directory, when it has one; the directory's slashes
/// become hyphens in the model's own name, which follows that of the repository.
pub proof fn lemma_files_lie_under_the_subdirectory(h: HubRefV, f: Seq<char>, i: int)
    requires
        0 <= i < 6,
    ensures
        h.subdir.len() == 0 ==> h.path_of(f) == f && h.short() == h.repo_name(),
        h.subdir.len() > 0 ==> {
            &&& h.path_of(f) == h.subdir + "/"@ + f
            &&& h.path_of(f).take(h.subdir.len() as int) == h.subdir
            &&& h.short().take(h.repo_name().len() as int) == h.repo_name()
            &&& !h.subdir.contains('/') ==> h.short() == h.repo_name() + "-"@ + h.subdir
        },
        checkpoint_paths(h).len() == 6,
        checkpoint_paths(h)[i].1 <==> i < 4,
        checkpoint_paths(h)[0].0 == h.path_of("rl_agent_config.json"@),
        checkpoint_paths(h)[1].0 == h.path_of("model.safetensors"@),
        checkpoint_paths(h)[2].0 == h.path_of("encoder/config.json"@),
        checkpoint_paths(h)[3].0 == h.path_of("tokenizer/tokenizer.json"@),
{
    if h.subdir.len() > 0 {
        assert(h.path_of(f).take(h.subdir.len() as int) =~= h.subdir);
        assert(h.short().take(h.repo_name().len() as int) =~= h.repo_name());
        reveal_strlit("/");
        reveal_strlit("-");
        assert("/"@ =~= seq!['/']);
        text::lemma_replacing_one_character(h.subdir, '/', "-"@);
    }
}

/// The cache knows a commit by itself and another revision by what its file says, trimmed.
pub proof fn lemma_commits_are_known_by_themselves(h: HubRefV, ref_text: Option<String>)
    ensures
        commit_like(h.revision) ==> known_commit(h, ref_text) == Some(h.revision),
        !commit_like(h.revision) && ref_text is None ==> known_commit(h, ref_text) is None,
        !commit_like(h.revision) && ref_text is Some ==> known_commit(h, ref_text) == Some(
            text::trimmed(ref_text->0@),
        ),
        commit_like(h.revision) ==> h.revision.len() == 40,
{
}

/// How far a download is, in hundredths: nothing at the start, all at the end, and never less
/// after more.
pub proof fn lemma_progress_counts_up(a: nat, b: nat, total: nat)
    requires
        a <= b <= total,
        total > 0,
    ensures
        percent(0, total) == 0,
        percent(total, total) == 100,
        percent(a, total) <= percent(b, total) <= 100,
        percent(a, total) * total <= a * 100 < (percent(a, total) + 1) * total,
{
    let t = total as int;
    vstd::arithmetic::div_mod::lemma_div_is_ordered(a as int * 100, b as int * 100, t);
    vstd::arithmetic::div_mod::lemma_div_is_ordered(b as int * 100, t * 100, t);
    vstd::arithmetic::div_mod::lemma_div_multiples_vanish(100, t);
    assert(t * 100 / t == 100);
    vstd::arithmetic::div_mod::lemma_fundamental_div_mod(a as int * 100, t);
    let q = a as int * 100 / t;
    let r = (a as int * 100) % t;
    assert(q * t <= a * 100 < (q + 1) * t) by (nonlinear_arith)
        requires
            a as int * 100 == t * q + r,
            0 <= r < t,
    ;
}

/// The commit of a reply is what it says under `sha`; without a home of any kind the Hub's home lies
/// under the working directory.
pub proof fn lemma_replies_name_their_commit(
    o: Seq<(Seq<char>, crate::json::JsonV)>,
    s: Seq<char>,
    env: HubEnv,
)
    ensures
        crate::json::member(o, "sha"@) == Some(crate::json::JsonV::String(s)) ==> sha_of(
            crate::json::JsonV::Object(o),
        ) == Some(s),
        crate::json::member(o, "sha"@) is None ==> sha_of(crate::json::JsonV::Object(o)) is None,
        nonempty(env.hf_home) is None && nonempty(env.home) is None && nonempty(env.userprofile)
            is None ==> home_place(env).base == "."@,
{
}

/// A commit is forty hexadecimal digits, of either case.
pub proof fn lemma_commits_are_hexadecimal(rev: Seq<char>, c: char, i: int)
    ensures
        commit_like(rev) && 0 <= i < rev.len() ==> rev.len() == 40 && hex_char(rev[i]),
        '0' <= c <= '9' || 'a' <= c <= 'f' || 'A' <= c <= 'F' <==> hex_char(c),
        rev.len() != 40 ==> !commit_like(rev),
        commit_like(Seq::new(40, |k: int| 'a')),
        commit_like(Seq::new(40, |k: int| 'F')),
        !commit_like(Seq::new(40, |k: int| 'g')),
{
    let g = Seq::new(40, |k: int| 'g');
    assert(!hex_char(g[0]));
}

/// A repository's own name is what follows its owner.
pub proof fn lemma_repositories_are_named_behind_their_owner(
    h: HubRefV,
    owner: Seq<char>,
    name: Seq<char>,
)
    requires
        h.repo == owner + seq!['/'] + name,
        !owner.contains('/'),
        !name.contains('/'),
    ensures
        h.repo_name() == name,
{
    let parts = seq![owner, name];
    text::lemma_pieces_of_joined(parts, '/');
    assert(parts.drop_last() =~= seq![owner]);
    assert(text::joined(seq![owner], seq!['/']) == owner);
    assert(text::joined(parts, seq!['/']) =~= h.repo);
}

} // verus!
