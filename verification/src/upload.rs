use vstd::prelude::*;
use crate::text::{chars_of, lemma_split_on_nonempty, split_by, split_on, str_eq, views};

verus! {

/// The file name `sanitize_filename::sanitize` makes of a name.
pub uninterp spec fn sanitized(name: Seq<char>) -> Seq<char>;

/// Calls `sanitize_filename::sanitize`, which replaces what a file name
/// may not hold (every `/` among it); what it returns is the name
/// `sanitized`, and it holds no `/`.
#[verifier::external_body]
fn sanitize_name(name: &str) -> (r: String)
    ensures
        r@ == sanitized(name@),
        !r@.contains('/'),
{
    sanitize_filename::sanitize(name)
}

/// `s` ends with `p`.
pub open spec fn ends_with(s: Seq<char>, p: Seq<char>) -> bool {
    p.len() <= s.len() && s.skip(s.len() - p.len()) == p
}

fn ends_with_text(s: &str, p: &str) -> (r: bool)
    ensures
        r == ends_with(s@, p@),
{
    let sc = chars_of(s);
    let pc = chars_of(p);
    if pc.len() > sc.len() {
        return false;
    }
    let n = sc.len();
    let off = n - pc.len();
    let mut k: usize = 0;
    while k < pc.len()
        invariant
            n == sc@.len(),
            sc@ == s@,
            pc@ == p@,
            off + pc@.len() == sc@.len(),
            k <= pc@.len(),
            forall|m: int| 0 <= m < k ==> sc@[off + m] == pc@[m],
        decreases pc.len() - k,
    {
        if sc[off + k] != pc[k] {
            assert(s@.skip(off as int)[k as int] != p@[k as int]);
            return false;
        }
        k += 1;
    }
    assert(s@.skip(off as int) =~= p@);
    true
}

/// The part of an upload form a field fills.
pub enum FieldKind {
    File,
    GithubLink,
    UploadTime,
    UserEmail,
    Other,
}

/// The kind of a form field by its name.
pub open spec fn kind_of(name: Seq<char>) -> FieldKind {
    if name == "file"@ {
        FieldKind::File
    } else if name == "githubLink"@ {
        FieldKind::GithubLink
    } else if name == "uploadTime"@ {
        FieldKind::UploadTime
    } else if name == "user_email"@ {
        FieldKind::UserEmail
    } else {
        FieldKind::Other
    }
}

/// Tells what a form field fills by its name.
pub fn field_kind(name: &str) -> (r: FieldKind)
    ensures
        r == kind_of(name@),
{
    if str_eq(name, "file") {
        FieldKind::File
    } else if str_eq(name, "githubLink") {
        FieldKind::GithubLink
    } else if str_eq(name, "uploadTime") {
        FieldKind::UploadTime
    } else if str_eq(name, "user_email") {
        FieldKind::UserEmail
    } else {
        FieldKind::Other
    }
}

/// Where an uploaded file goes: a zip archive is saved, then unpacked into
/// a directory named by the file name up to its first `.`; any other file
/// is saved as it is, and ends the form.
pub enum UploadTarget {
    Zip { zip_path: String, extract_dir: String },
    Plain { path: String },
}

/// The file name a form gives, `default.zip` when it gives none.
pub open spec fn given_name(filename: Option<Seq<char>>) -> Seq<char> {
    match filename {
        Some(f) => f,
        None => "default.zip"@,
    }
}

/// Where an upload with the (sanitised) name goes.
pub open spec fn target_for(s: Seq<char>) -> (bool, Seq<char>, Seq<char>) {
    if ends_with(s, ".zip"@) {
        (
            true,
            "target/zip/upload/"@ + s,
            if split_on(s, '.').len() >= 2 {
                split_on(s, '.')[0]
            } else {
                Seq::empty()
            },
        )
    } else {
        (false, "/home/rust/output/www/uploads/"@ + s, Seq::empty())
    }
}

/// Whether a target is where `target_for` sends the name.
pub open spec fn target_matches(t: UploadTarget, s: Seq<char>) -> bool {
    match t {
        UploadTarget::Zip { zip_path, extract_dir } => target_for(s).0 && zip_path@
            == target_for(s).1 && extract_dir@ == target_for(s).2,
        UploadTarget::Plain { path } => !target_for(s).0 && path@ == target_for(s).1,
    }
}

/// The directory an archive entry (given by its enclosed path) unpacks to.
pub open spec fn extracted_path_of(dir: Seq<char>, entry: Seq<char>) -> Seq<char> {
    "target/www/uploads/"@ + dir + "/"@ + entry
}

/// Where an archive entry unpacks to.
pub fn extracted_path(dir: &str, entry: &str) -> (r: String)
    ensures
        r@ == extracted_path_of(dir@, entry@),
{
    let mut p = "target/www/uploads/".to_owned();
    p.append(dir);
    p.append("/");
    p.append(entry);
    p
}

/// Whether an archive entry is a directory: its name ends with `/`.
pub fn is_dir_entry(name: &str) -> (r: bool)
    ensures
        r == ends_with(name@, "/"@),
{
    ends_with_text(name, "/")
}

/// A directory name an archive unpacks into that stays one level below
/// the uploads directory: it holds no `/` and is neither `.` nor `..`.
pub open spec fn safe_piece(d: Seq<char>) -> bool {
    !d.contains('/') && d != "."@ && d != ".."@
}

/// Every character of a piece of `s` split at `sep` is in `s` and is not
/// `sep`.
proof fn lemma_split_pieces(s: Seq<char>, sep: char)
    ensures
        forall|i: int, j: int|
            0 <= i < split_on(s, sep).len() && 0 <= j < split_on(s, sep)[i].len() ==> #[trigger] split_on(
                s,
                sep,
            )[i][j] != sep && s.contains(split_on(s, sep)[i][j]),
    decreases s.len(),
{
    if s.len() > 0 {
        let p = s.drop_last();
        lemma_split_pieces(p, sep);
        lemma_split_on_nonempty(p, sep);
        let rest = split_on(p, sep);
        assert forall|x: char| p.contains(x) implies s.contains(x) by {
            let k = choose|k: int| 0 <= k < p.len() && p[k] == x;
            assert(s[k] == x);
        }
        assert(s[s.len() - 1] == s.last());
        let t = split_on(s, sep);
        assert forall|i: int, j: int| 0 <= i < t.len() && 0 <= j < t[i].len() implies #[trigger] t[i][j]
            != sep && s.contains(t[i][j]) by {
            if s.last() == sep {
                assert(t == rest.push(Seq::<char>::empty()));
                if i < rest.len() {
                    assert(t[i] == rest[i]);
                    assert(p.contains(rest[i][j]));
                }
            } else {
                let lastp = rest.last().push(s.last());
                assert(t == rest.update(rest.len() - 1, lastp));
                if i < rest.len() - 1 {
                    assert(t[i] == rest[i]);
                    assert(p.contains(rest[i][j]));
                } else {
                    assert(t[i] == lastp);
                    if j < rest.last().len() {
                        assert(lastp[j] == rest[rest.len() - 1][j]);
                        assert(p.contains(rest[rest.len() - 1][j]));
                    }
                }
            }
        }
    }
}

/// A row an upload adds: an uploaded crate file or an uploaded repository
/// link, each with the uploader's address and the upload time.
pub enum UploadInsert {
    Crate { email: String, filename: String, uploadtime: String },
    Url { email: String, githuburl: String, uploadtime: String },
}

/// The state of an upload form as its fields arrive.
pub struct UploadForm {
    pub upload_time: Option<String>,
    pub user_email: Option<String>,
    pub github_link: Option<String>,
    pub file_name: Option<String>,
}

impl UploadForm {
    /// A form before any field.
    pub fn new() -> (r: Self)
        ensures
            r.upload_time is None && r.user_email is None && r.github_link is None
                && r.file_name is None,
    {
        UploadForm { upload_time: None, user_email: None, github_link: None, file_name: None }
    }

    /// A file field arrives (with the file name it gives, if any): the form
    /// records the name, and the file goes where its sanitised name says.
    pub fn file_field(&mut self, filename: Option<&str>) -> (r: UploadTarget)
        ensures
            ({
                let given = given_name(
                    match filename {
                        Some(f) => Some(f@),
                        None => None,
                    },
                );
                &&& final(self).file_name matches Some(f) && f@ == given
                &&& target_matches(r, sanitized(given))
            }),
            r matches UploadTarget::Zip { extract_dir, .. } ==> safe_piece(extract_dir@),
            final(self).upload_time == old(self).upload_time,
            final(self).user_email == old(self).user_email,
            final(self).github_link == old(self).github_link,
    {
        let name = match filename {
            Some(f) => f.to_owned(),
            None => "default.zip".to_owned(),
        };
        let safe = sanitize_name(name.as_str());
        proof {
            reveal_strlit(".");
            reveal_strlit("..");
            assert("."@ =~= seq!['.']);
            assert(".."@ =~= seq!['.', '.']);
            assert(seq!['.'][0] == '.');
            assert(seq!['.', '.'][0] == '.');
            assert("."@.contains('.'));
            assert(".."@.contains('.'));
        }
        self.file_name = Some(name);
        if ends_with_text(safe.as_str(), ".zip") {
            let mut zip_path = "target/zip/upload/".to_owned();
            zip_path.append(safe.as_str());
            let parts = split_by(safe.as_str(), '.');
            let dir = if parts.len() >= 2 {
                assert(views(parts@)[0] == parts@[0]@);
                proof {
                    lemma_split_pieces(safe@, '.');
                    let d = split_on(safe@, '.')[0];
                    assert forall|j: int| 0 <= j < d.len() implies d[j] != '/' by {
                        assert(safe@.contains(d[j]));
                    }
                    if d.contains('.') {
                        let j = choose|j: int| 0 <= j < d.len() && d[j] == '.';
                        assert(split_on(safe@, '.')[0][j] != '.');
                    }
                    assert(!d.contains('.'));
                    assert(safe_piece(d));
                }
                parts[0].clone()
            } else {
                String::new()
            };
            UploadTarget::Zip { zip_path, extract_dir: dir }
        } else {
            let mut path = "/home/rust/output/www/uploads/".to_owned();
            path.append(safe.as_str());
            UploadTarget::Plain { path }
        }
    }

    /// A text field arrives: a repository link, an upload time or an
    /// address is recorded; other fields leave the form as it is.
    pub fn text_field(&mut self, kind: FieldKind, value: String)
        ensures
            final(self).file_name == old(self).file_name,
            final(self).github_link == (if kind is GithubLink {
                Some(value)
            } else {
                old(self).github_link
            }),
            final(self).upload_time == (if kind is UploadTime {
                Some(value)
            } else {
                old(self).upload_time
            }),
            final(self).user_email == (if kind is UserEmail {
                Some(value)
            } else {
                old(self).user_email
            }),
    {
        match kind {
            FieldKind::GithubLink => self.github_link = Some(value),
            FieldKind::UploadTime => self.upload_time = Some(value),
            FieldKind::UserEmail => self.user_email = Some(value),
            _ => {},
        }
    }

    /// The rows the finished form adds: with both an upload time and an
    /// address, one for the file (if a file came) and then one for the
    /// link (if a link came); else none.
    pub fn inserts(&self) -> (r: Vec<UploadInsert>)
        ensures
            ({
                match (self.upload_time, self.user_email) {
                    (Some(t), Some(e)) => {
                        &&& r@.len() == (if self.file_name is Some {
                            1int
                        } else {
                            0
                        }) + (if self.github_link is Some {
                            1int
                        } else {
                            0
                        })
                        &&& (self.file_name matches Some(f) ==> r@[0] == (UploadInsert::Crate {
                            email: e,
                            filename: f,
                            uploadtime: t,
                        }))
                        &&& (self.github_link matches Some(g) ==> r@.last() == (UploadInsert::Url {
                            email: e,
                            githuburl: g,
                            uploadtime: t,
                        }))
                    },
                    _ => r@.len() == 0,
                }
            }),
    {
        let mut r: Vec<UploadInsert> = Vec::new();
        match (&self.upload_time, &self.user_email) {
            (Some(t), Some(e)) => {
                if let Some(f) = &self.file_name {
                    r.push(
                        UploadInsert::Crate {
                            email: e.clone(),
                            filename: f.clone(),
                            uploadtime: t.clone(),
                        },
                    );
                }
                if let Some(g) = &self.github_link {
                    r.push(
                        UploadInsert::Url {
                            email: e.clone(),
                            githuburl: g.clone(),
                            uploadtime: t.clone(),
                        },
                    );
                }
            },
            _ => {},
        }
        r
    }
}


/// A member of a zip archive: its name as stored, the path it unpacks to
/// when that path stays inside the extraction directory, and its bytes.
pub struct ZipMember {
    pub name: String,
    pub enclosed: Option<String>,
    pub data: Vec<u8>,
}

/// A member as plain values.
pub open spec fn member_view(m: ZipMember) -> (Seq<char>, Option<Seq<char>>, Seq<u8>) {
    (
        m.name@,
        match m.enclosed {
            Some(s) => Some(s@),
            None => None,
        },
        m.data@,
    )
}

/// The members as plain values.
pub open spec fn member_views(ms: Seq<ZipMember>) -> Seq<(Seq<char>, Option<Seq<char>>, Seq<u8>)> {
    ms.map_values(|m: ZipMember| member_view(m))
}

/// What `zip::ZipArchive::new` reads from the bytes, member by member
/// (`by_index`, `ZipFile::name`, `ZipFile::enclosed_name`, the member's
/// bytes): none when the archive or a member cannot be read.
pub uninterp spec fn zip_members_of(data: Seq<u8>) -> Option<Seq<(Seq<char>, Option<Seq<char>>, Seq<u8>)>>;

/// A relative path with no `.` or `..` piece between its `/`s, that does
/// not start at the root.
pub open spec fn safe_relative(p: Seq<char>) -> bool {
    &&& !(p.len() > 0 && p[0] == '/')
    &&& forall|i: int|
        0 <= i < split_on(p, '/').len() ==> #[trigger] split_on(p, '/')[i] != "."@ && split_on(
            p,
            '/',
        )[i] != ".."@
}

/// Reads the archive with `zip::ZipArchive::new` and each member with
/// `by_index`, taking its name (`ZipFile::name`), its enclosed path
/// (`ZipFile::enclosed_name`, shown as text) and its bytes; none when the
/// archive, a member or a name cannot be read. What comes back is the name
/// `zip_members_of`; beyond that, the contract states what the zip crate
/// gives of an enclosed path: it is built of normal components only, so it
/// does not start at the root and has no `.` or `..` piece.
#[verifier::external_body]
fn zip_members(data: &[u8]) -> (r: Option<Vec<ZipMember>>)
    ensures
        match r {
            Some(v) => zip_members_of(data@) == Some(member_views(v@)),
            None => zip_members_of(data@) is None,
        },
        r matches Some(v) ==> forall|i: int|
            0 <= i < v@.len() ==> ((#[trigger] v@[i]).enclosed matches Some(p) ==> safe_relative(p@)),
{
    let mut a = match zip::ZipArchive::new(std::io::Cursor::new(data)) { Ok(a) => a, Err(_) => return None };
    let mut out = Vec::new();
    for i in 0..a.len() {
        let mut f = match a.by_index(i) { Ok(f) => f, Err(_) => return None };
        let name = match f.name() { Ok(n) => n.into_owned(), Err(_) => return None };
        let enclosed = f.enclosed_name().map(|p| p.display().to_string());
        let mut data = Vec::new();
        let _ = std::io::Read::read_to_end(&mut f, &mut data);
        out.push(ZipMember { name, enclosed, data });
    }
    Some(out)
}

/// One write of an unpacking: the path, whether it is a directory to
/// create (else a file, its parent directory created first), and the
/// file's bytes.
pub struct UnpackStep {
    pub path: String,
    pub is_dir: bool,
    pub data: Vec<u8>,
}

/// A step as plain values.
pub open spec fn step_view(s: UnpackStep) -> (Seq<char>, bool, Seq<u8>) {
    (s.path@, s.is_dir, s.data@)
}

/// The steps as plain values.
pub open spec fn step_views(ss: Seq<UnpackStep>) -> Seq<(Seq<char>, bool, Seq<u8>)> {
    ss.map_values(|s: UnpackStep| step_view(s))
}

/// The writes that unpack the members into `dir`: a member without an
/// enclosed path is skipped; the others go, in order, to their enclosed
/// path under `dir`, as a directory when the name ends with `/`.
pub open spec fn unpack_writes(
    dir: Seq<char>,
    ms: Seq<(Seq<char>, Option<Seq<char>>, Seq<u8>)>,
) -> Seq<(Seq<char>, bool, Seq<u8>)>
    decreases ms.len(),
{
    if ms.len() == 0 {
        Seq::empty()
    } else {
        let rest = unpack_writes(dir, ms.drop_last());
        let m = ms.last();
        match m.1 {
            Some(p) => rest.push((extracted_path_of(dir, p), ends_with(m.0, "/"@), m.2)),
            None => rest,
        }
    }
}

/// The writes that unpack the members into `dir`.
pub fn unpack_steps(extract_dir: &str, members: &Vec<ZipMember>) -> (r: Vec<UnpackStep>)
    ensures
        step_views(r@) == unpack_writes(extract_dir@, member_views(members@)),
{
    let mut out: Vec<UnpackStep> = Vec::new();
    let mut i: usize = 0;
    while i < members.len()
        invariant
            i <= members@.len(),
            step_views(out@) == unpack_writes(extract_dir@, member_views(members@).take(i as int)),
        decreases members.len() - i,
    {
        proof {
            assert(member_views(members@).take(i + 1).drop_last() =~= member_views(members@).take(
                i as int,
            ));
            assert(member_views(members@).take(i + 1).last() == member_view(members@[i as int]));
        }
        let m = &members[i];
        match &m.enclosed {
            Some(p) => {
                let ghost before = step_views(out@);
                let step = UnpackStep {
                    path: extracted_path(extract_dir, p.as_str()),
                    is_dir: is_dir_entry(m.name.as_str()),
                    data: m.data.clone(),
                };
                out.push(step);
                assert(step_views(out@) =~= before.push(step_view(step)));
            },
            None => {},
        }
        i += 1;
    }
    assert(member_views(members@).take(members.len() as int) =~= member_views(members@));
    out
}

/// A path that an unpacking into `dir` may write: the uploads directory,
/// then `dir`, then a relative path with no `.` or `..` piece.
pub open spec fn inside_extract_dir(dir: Seq<char>, path: Seq<char>) -> bool {
    exists|p: Seq<char>| #[trigger] extracted_path_of(dir, p) == path && safe_relative(p)
}

/// Unpacking members whose enclosed paths are safe writes only inside the
/// extraction directory.
proof fn lemma_unpack_writes_inside(dir: Seq<char>, ms: Seq<(Seq<char>, Option<Seq<char>>, Seq<u8>)>)
    requires
        forall|i: int| 0 <= i < ms.len() ==> ((#[trigger] ms[i]).1 matches Some(p) ==> safe_relative(p)),
    ensures
        forall|k: int|
            0 <= k < unpack_writes(dir, ms).len() ==> inside_extract_dir(
                dir,
                #[trigger] unpack_writes(dir, ms)[k].0,
            ),
    decreases ms.len(),
{
    if ms.len() > 0 {
        let d = ms.drop_last();
        assert forall|i: int| 0 <= i < d.len() implies ((#[trigger] d[i]).1 matches Some(p) ==> safe_relative(p)) by {
            assert(d[i] == ms[i]);
        }
        lemma_unpack_writes_inside(dir, d);
        let rest = unpack_writes(dir, d);
        let m = ms.last();
        assert(ms[ms.len() - 1] == m);
        match m.1 {
            Some(p) => {
                let w = rest.push((extracted_path_of(dir, p), ends_with(m.0, "/"@), m.2));
                assert forall|k: int| 0 <= k < w.len() implies inside_extract_dir(dir, #[trigger] w[k].0) by {
                    if k < rest.len() {
                        assert(w[k] == rest[k]);
                    } else {
                        assert(extracted_path_of(dir, p) == w[k].0 && safe_relative(p));
                    }
                }
            },
            None => {},
        }
    }
}

/// The writes that unpack an uploaded archive into `extract_dir`: none
/// when the archive cannot be read. Every write stays inside the
/// extraction directory under the uploads directory.
pub fn unpack_plan(extract_dir: &str, archive: &[u8]) -> (r: Option<Vec<UnpackStep>>)
    ensures
        r is None <==> zip_members_of(archive@) is None,
        r matches Some(s) ==> step_views(s@) == unpack_writes(extract_dir@, zip_members_of(archive@)->0),
        r matches Some(s) ==> forall|k: int|
            0 <= k < s@.len() ==> inside_extract_dir(extract_dir@, (#[trigger] s@[k]).path@),
{
    match zip_members(archive) {
        Some(members) => {
            let steps = unpack_steps(extract_dir, &members);
            proof {
                let mv = member_views(members@);
                assert forall|i: int| 0 <= i < mv.len() implies ((#[trigger] mv[i]).1 matches Some(p) ==> safe_relative(p)) by {
                    assert(mv[i] == member_view(members@[i]));
                    assert((members@[i].enclosed matches Some(q) ==> safe_relative(q@)));
                }
                lemma_unpack_writes_inside(extract_dir@, mv);
                assert forall|k: int| 0 <= k < steps@.len() implies inside_extract_dir(extract_dir@, (#[trigger] steps@[k]).path@) by {
                    assert(step_views(steps@)[k] == step_view(steps@[k]));
                    assert(unpack_writes(extract_dir@, mv)[k].0 == steps@[k].path@);
                }
            }
            Some(steps)
        },
        None => None,
    }
}

} // verus!
