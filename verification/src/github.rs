use vstd::prelude::*;
use vstd::utf8::{decode_utf8, encode_utf8_decode_utf8};
use vstd::string::StringSliceAdditionalSpecFns;
use sha2::Digest;
use crate::text::{chars_of, push_char, string_of, views};

verus! {

/// The SHA-256 digest of the bytes.
pub uninterp spec fn sha256_of(data: Seq<u8>) -> Seq<u8>;

/// The capture groups (group 0 the whole match) of the leftmost match of
/// `pattern` in `text`, a group that took no part being `None`; `None` when
/// the pattern does not compile or does not match.
pub uninterp spec fn regex_captures_of(pattern: Seq<char>, text: Seq<char>) -> Option<
    Seq<Option<Seq<char>>>,
>;

/// `text` with the leftmost match of `pattern` replaced; `None` when the
/// pattern does not compile.
pub uninterp spec fn regex_replaced(pattern: Seq<char>, text: Seq<char>, replacement: Seq<char>) -> Option<
    Seq<char>,
>;

/// The text of an optional string.
pub open spec fn opt_view(x: Option<String>) -> Option<Seq<char>> {
    match x {
        Some(s) => Some(s@),
        None => None,
    }
}

/// Calls `sha2::Sha256::digest`: the result is the digest, 32 bytes long.
#[verifier::external_body]
fn sha256_digest(data: &[u8]) -> (r: Vec<u8>)
    ensures
        r@ == sha256_of(data@),
        r@.len() == 32,
{
    sha2::Sha256::digest(data).to_vec()
}

/// Compiles `pattern` with `regex::Regex::new` and calls `captures` on
/// `text`, handing each group out as an owned string. What the groups hold
/// is the name `regex_captures_of`; nothing more is stated.
#[verifier::external_body]
fn regex_captures(pattern: &str, text: &str) -> (r: Option<Vec<Option<String>>>)
    ensures
        r matches Some(g) ==> regex_captures_of(pattern@, text@) == Some(
            g@.map_values(|x: Option<String>| opt_view(x)),
        ),
        r is None ==> regex_captures_of(pattern@, text@) is None,
{
    match regex::Regex::new(pattern) {
        Ok(re) => re.captures(text).map(
            |c| c.iter().map(|m| m.map(|m| m.as_str().to_string())).collect(),
        ),
        Err(_) => None,
    }
}

/// Compiles `pattern` with `regex::Regex::new` and calls `replace` (the
/// leftmost match only) on `text`. The result is the name `regex_replaced`.
#[verifier::external_body]
fn regex_replace_first(pattern: &str, text: &str, replacement: &str) -> (r: Option<String>)
    ensures
        r matches Some(s) ==> regex_replaced(pattern@, text@, replacement@) == Some(s@),
        r is None ==> regex_replaced(pattern@, text@, replacement@) is None,
{
    match regex::Regex::new(pattern) {
        Ok(re) => Some(re.replace(text, replacement).into_owned()),
        Err(_) => None,
    }
}

/// The lower-case hexadecimal digit for a value below sixteen.
pub open spec fn hex_digit(v: u8) -> char {
    if v < 10 {
        ((48 + v) as u8) as char
    } else {
        ((87 + v) as u8) as char
    }
}

/// Lower-case hexadecimal text of the bytes, two digits per byte
/// (`{:x}` on a digest).
pub open spec fn lower_hex(data: Seq<u8>) -> Seq<char>
    decreases data.len(),
{
    if data.len() == 0 {
        Seq::<char>::empty()
    } else {
        lower_hex(data.drop_last()).push(hex_digit(data.last() / 16)).push(
            hex_digit(data.last() % 16),
        )
    }
}

fn hex_char(v: u8) -> (c: char)
    requires
        v < 16,
    ensures
        c == hex_digit(v),
{
    if v < 10 {
        (48u8 + v) as char
    } else {
        (87u8 + v) as char
    }
}

proof fn lemma_lower_hex_len(data: Seq<u8>)
    ensures
        lower_hex(data).len() == 2 * data.len(),
    decreases data.len(),
{
    if data.len() > 0 {
        lemma_lower_hex_len(data.drop_last());
    }
}

/// Hexadecimal text of the bytes.
pub fn to_lower_hex(data: &[u8]) -> (s: String)
    ensures
        s@ == lower_hex(data@),
{
    let mut s = String::new();
    let mut i: usize = 0;
    while i < data.len()
        invariant
            i <= data@.len(),
            s@ == lower_hex(data@.take(i as int)),
        decreases data.len() - i,
    {
        let b = data[i];
        assert(data@.take(i + 1).drop_last() =~= data@.take(i as int));
        push_char(&mut s, hex_char(b / 16));
        push_char(&mut s, hex_char(b % 16));
        i += 1;
    }
    assert(data@.take(data@.len() as int) =~= data@);
    s
}

/// The SHA-256 digest of the owner name, in lower-case hexadecimal.
pub fn calculate_hash(owner: &str) -> (r: String)
    ensures
        r@ == lower_hex(sha256_of(owner.spec_bytes())),
        r@.len() == 64,
{
    let digest = sha256_digest(owner.as_bytes());
    let r = to_lower_hex(digest.as_slice());
    proof {
        lemma_lower_hex_len(digest@);
    }
    r
}

/// `rel` appended to the path `base`, as `Path::join` does for a relative
/// path on Unix: a `/` goes between them unless `base` is empty or already
/// ends in `/`.
pub open spec fn path_join(base: Seq<char>, rel: Seq<char>) -> Seq<char> {
    if base.len() == 0 || base.last() == '/' {
        base + rel
    } else {
        base.push('/') + rel
    }
}

/// Where the clone of `owner/repo` lives under `base_dir`: two directory
/// levels named by the first two pairs of hex digits of the owner's hash,
/// then `owner/repo`.
pub fn repo_dir(base_dir: String, owner: &str, repo: &str) -> (r: String)
    ensures
        ({
            let h = lower_hex(sha256_of(owner.spec_bytes()));
            r@ == path_join(
                base_dir@,
                h.subrange(0, 2) + seq!['/'] + h.subrange(2, 4) + seq!['/'] + owner@ + seq!['/']
                    + repo@,
            )
        }),
{
    let hash_hex = chars_of(calculate_hash(owner).as_str());
    let mut rel = String::new();
    push_char(&mut rel, hash_hex[0]);
    push_char(&mut rel, hash_hex[1]);
    push_char(&mut rel, '/');
    push_char(&mut rel, hash_hex[2]);
    push_char(&mut rel, hash_hex[3]);
    push_char(&mut rel, '/');
    rel.append(owner);
    push_char(&mut rel, '/');
    rel.append(repo);
    let ghost h = hash_hex@;
    assert(h == lower_hex(sha256_of(owner.spec_bytes())));
    assert(rel@ =~= h.subrange(0, 2) + seq!['/'] + h.subrange(2, 4) + seq!['/'] + owner@ + seq!['/']
        + repo@);
    let b = chars_of(base_dir.as_str());
    let ghost base = base_dir@;
    let mut out = base_dir;
    if b.len() > 0 && b[b.len() - 1] != '/' {
        push_char(&mut out, '/');
        assert(base.len() > 0 && base.last() != '/');
    }
    out.append(rel.as_str());
    assert(out@ == path_join(base, rel@));
    out
}

/// The pattern that finds owner and repository in a GitHub URL.
pub open spec fn owner_repo_pattern() -> Seq<char> {
    "github\\.com/([^/]+)/([^/]+)"@
}

/// One step of URL normalising: the text with the leftmost match of the
/// pattern removed (unchanged should the pattern not compile).
pub open spec fn strip_match(pattern: Seq<char>, text: Seq<char>) -> Seq<char> {
    match regex_replaced(pattern, text, Seq::<char>::empty()) {
        Some(t) => t,
        None => text,
    }
}

/// A repository name with a trailing `.git` (any case), trailing slashes
/// and a `#` fragment removed, in that order.
pub open spec fn normalized_repo(repo: Seq<char>) -> Seq<char> {
    strip_match(
        "#.*$"@,
        strip_match("/+$"@, strip_match("(?i)\\.git$"@, repo)),
    )
}

fn strip_first(pattern: &str, text: String) -> (r: String)
    ensures
        r@ == strip_match(pattern@, text@),
{
    let nothing = String::new();
    match regex_replace_first(pattern, text.as_str(), nothing.as_str()) {
        Some(t) => t,
        None => text,
    }
}

/// Removes a trailing `.git` (any case), trailing slashes and a `#`
/// fragment from a repository name.
pub fn normalize_repo_url(repo: &str) -> (r: String)
    ensures
        r@ == normalized_repo(repo@),
{
    let a = strip_first("(?i)\\.git$", repo.to_owned());
    let b = strip_first("/+$", a);
    strip_first("#.*$", b)
}

/// Owner and repository of a GitHub URL: the first two groups of
/// `owner_repo_pattern`, the repository normalised.
pub open spec fn owner_and_repo(url: Seq<char>) -> Option<(Seq<char>, Seq<char>)> {
    match regex_captures_of(owner_repo_pattern(), url) {
        Some(g) => if g.len() >= 3 && g[1] is Some && g[2] is Some {
            Some((g[1]->0, normalized_repo(g[2]->0)))
        } else {
            None
        },
        None => None,
    }
}

/// Owner and repository named by a GitHub URL, or `None` when it names
/// none.
pub fn parse_to_owner_and_repo(repository: &str) -> (r: Option<(String, String)>)
    ensures
        r is Some <==> owner_and_repo(repository@) is Some,
        r matches Some(p) ==> owner_and_repo(repository@) == Some((p.0@, p.1@)),
{
    match regex_captures("github\\.com/([^/]+)/([^/]+)", repository) {
        Some(groups) => {
            let ghost gv = groups@.map_values(|x: Option<String>| opt_view(x));
            if groups.len() >= 3 {
                assert(gv[1] == opt_view(groups@[1]));
                assert(gv[2] == opt_view(groups@[2]));
                match (&groups[1], &groups[2]) {
                    (Some(owner), Some(repo)) => {
                        let r = normalize_repo_url(repo.as_str());
                        Some((owner.clone(), r))
                    },
                    _ => None,
                }
            } else {
                None
            }
        },
        None => None,
    }
}

/// `n` asterisks.
pub open spec fn stars(n: nat) -> Seq<char> {
    Seq::new(n, |i: int| '*')
}

fn push_stars(s: &mut String, n: usize)
    ensures
        final(s)@ == old(s)@ + stars(n as nat),
{
    let mut i: usize = 0;
    while i < n
        invariant
            i <= n,
            s@ == old(s)@ + stars(i as nat),
        decreases n - i,
    {
        push_char(s, '*');
        assert(old(s)@ + stars(i as nat) + seq!['*'] =~= old(s)@ + stars((i + 1) as nat));
        i += 1;
    }
}

/// A token as logs show it: all asterisks up to eight bytes; else its
/// first ten bytes, one asterisk per byte beyond eight, its last four bytes.
pub open spec fn masked(bytes: Seq<u8>) -> Seq<char> {
    let n = bytes.len();
    if n <= 8 {
        stars(n)
    } else {
        decode_utf8(bytes.subrange(0, 10)) + stars((n - 8) as nat) + decode_utf8(
            bytes.subrange(n - 4, n as int),
        )
    }
}

/// Masks a token for logging (see `masked`).
pub fn mask_token(token: &str) -> (r: String)
    requires
        token.spec_bytes().len() <= usize::MAX,
        token.spec_bytes().len() > 8 ==> {
            &&& token.spec_bytes().len() >= 10
            &&& vstd::utf8::is_char_boundary(token.spec_bytes(), 10)
            &&& vstd::utf8::is_char_boundary(
                token.spec_bytes(),
                token.spec_bytes().len() - 4,
            )
        },
    ensures
        r@ == masked(token.spec_bytes()),
{
    let len = token.len();
    proof {
        vstd::utf8::encode_utf8_valid_utf8(token@);
    }
    if len <= 8 {
        let mut r = String::new();
        push_stars(&mut r, len);
        assert(r@ =~= stars(len as nat));
        r
    } else {
        let (start, _) = token.split_at(10);
        let (_, end) = token.split_at(len - 4);
        proof {
            encode_utf8_decode_utf8(start@);
            encode_utf8_decode_utf8(end@);
            assert(start@ == decode_utf8(token.spec_bytes().subrange(0, 10)));
            assert(end@ == decode_utf8(token.spec_bytes().subrange(len - 4, len as int)));
        }
        let mut r = start.to_owned();
        push_stars(&mut r, len - 8);
        r.append(end);
        assert(r@ == masked(token.spec_bytes()));
        r
    }
}

} // verus!
