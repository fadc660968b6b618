use vstd::prelude::*;

use vstd::arithmetic::power::pow;

use crate::chars::{ascii_lower, chars_of, decimal, push_char, push_decimal, same_text};

verus! {

broadcast use vstd::string::group_string_axioms;

/// A calendar date, as the upload service shows and files it.
pub struct CalendarDate {
    pub year: i32,
    pub month: u8,
    pub day: u8,
}

/// A file that was uploaded under a shareable id.
pub struct FileUpload {
    pub id: u128,
    pub upload_id: String,
    pub blob_id: u128,
    pub original_name: String,
    pub created_at: CalendarDate,
}

/// What the upload API answers with: the shareable id.
pub struct FileResponse {
    pub upload_id: String,
}

impl From<FileUpload> for FileResponse {
    fn from(file: FileUpload) -> (r: FileResponse) {
        FileResponse { upload_id: file.upload_id }
    }
}

impl vstd::std_specs::convert::FromSpecImpl<FileUpload> for FileResponse {
    open spec fn obeys_from_spec() -> bool {
        true
    }

    open spec fn from_spec(file: FileUpload) -> FileResponse {
        FileResponse { upload_id: file.upload_id }
    }
}

/// What `std::path::Path::extension` gives for the path `name`, as text.
pub uninterp spec fn path_extension_of(name: Seq<char>) -> Option<Seq<char>>;

/// Calls `Path::new(name).extension()` and reads the result as text. The contract
/// claims that the result is a function of `name`, and, as std documents, that an
/// extension is what follows the final '.' of the file name, so holds no '.'.
#[verifier::external_body]
fn path_extension(name: &str) -> (r: Option<&str>)
    ensures
        match r {
            Some(e) => path_extension_of(name@) == Some(e@) && !e@.contains('.'),
            None => path_extension_of(name@).is_none(),
        },
{
    match std::path::Path::new(name).extension() {
        Some(e) => e.to_str(),
        None => None,
    }
}

impl FileUpload {
    /// The extension of the original file name, as a path's extension.
    pub fn extension(&self) -> (r: Option<&str>)
        ensures
            match r {
                Some(e) => path_extension_of(self.original_name@) == Some(e@),
                None => path_extension_of(self.original_name@).is_none(),
            },
    {
        path_extension(self.original_name.as_str())
    }
}

/// The position of the last `c` among the first `n` characters of `s`, or -1.
pub open spec fn last_index_of(s: Seq<char>, c: char, n: int) -> int
    decreases n,
{
    if n <= 0 {
        -1
    } else if s[n - 1] == c {
        n - 1
    } else {
        last_index_of(s, c, n - 1)
    }
}

/// What follows the last '.' of `name`, or all of `name` if it has none.
pub open spec fn last_dot_segment(name: Seq<char>) -> Seq<char> {
    name.skip(last_index_of(name, '.', name.len() as int) + 1)
}

/// `s` with ASCII capitals made small, as `str::to_ascii_lowercase` does.
pub open spec fn ascii_lowercase(s: Seq<char>) -> Seq<char> {
    s.map_values(|c: char| ascii_lower(c))
}

/// The extensions that the file page plays as audio.
pub open spec fn audio_extensions() -> Seq<Seq<char>> {
    seq!["mp3"@, "wav"@, "flac"@, "m4a"@, "aac"@, "ogg"@, "opus"@]
}

/// Whether the file page plays `name` as audio: what follows its last '.', in ASCII
/// lowercase, is one of the audio extensions.
pub open spec fn is_audio_spec(name: Seq<char>) -> bool {
    audio_extensions().contains(ascii_lowercase(last_dot_segment(name)))
}

/// Whether the file page plays a file of this name as audio.
pub fn is_audio_file(name: &str) -> (r: bool)
    ensures
        r == is_audio_spec(name@),
{
    let cs = chars_of(name);
    let mut n = cs.len();
    while n > 0 && cs[n - 1] != '.'
        invariant
            n <= cs@.len(),
            last_index_of(cs@, '.', cs@.len() as int) == last_index_of(cs@, '.', n as int),
        decreases n,
    {
        n = n - 1;
    }
    let mut ext = String::new();
    let mut i = n;
    let ghost seg = cs@.skip(n as int);
    assert(seg =~= last_dot_segment(name@));
    while i < cs.len()
        invariant
            n <= i <= cs@.len(),
            seg == cs@.skip(n as int),
            ext@ == ascii_lowercase(seg.take(i - n)),
        decreases cs@.len() - i,
    {
        let c = cs[i];
        let lc = if 'A' <= c && c <= 'Z' {
            ((c as u32) + 32) as u8 as char
        } else {
            c
        };
        assert(lc == ascii_lower(c)) by {
            if 'A' <= c && c <= 'Z' {
                assert((((c as u32) + 32) as u8) as char == ((c as u32) + 32) as char);
            }
        }
        push_char(&mut ext, lc);
        assert(seg.take(i + 1 - n) =~= seg.take(i - n).push(c));
        assert(ext@ =~= ascii_lowercase(seg.take(i + 1 - n)));
        i = i + 1;
    }
    assert(seg.take(i - n) =~= seg);
    let e = ext.as_str();
    let r = same_text(e, "mp3") || same_text(e, "wav") || same_text(e, "flac") || same_text(
        e,
        "m4a",
    ) || same_text(e, "aac") || same_text(e, "ogg") || same_text(e, "opus");
    proof {
        let a = audio_extensions();
        let x = ext@;
        assert(a[0] == "mp3"@ && a[1] == "wav"@ && a[2] == "flac"@ && a[3] == "m4a"@ && a[4]
            == "aac"@ && a[5] == "ogg"@ && a[6] == "opus"@);
        if a.contains(x) {
            let k = choose|k: int| 0 <= k < a.len() && a[k] == x;
            assert(r);
        }
        if r {
            assert(a.contains(x));
        }
    }
    r
}

/// The lowercase hexadecimal digit for `d` (below 16).
pub open spec fn hex_digit(d: int) -> char {
    if d < 10 {
        ((d + 48) as u32) as char
    } else {
        ((d + 87) as u32) as char
    }
}

/// The 32 lowercase hexadecimal digits of `id`, most significant first.
pub open spec fn hex_digits(id: u128) -> Seq<char> {
    Seq::new(32, |k: int| hex_digit((id as int / pow(16, (31 - k) as nat)) % 16))
}

/// The hyphenated text of the UUID `id`: its hex digits in groups of 8, 4, 4, 4 and 12.
pub open spec fn uuid_text_spec(id: u128) -> Seq<char> {
    let h = hex_digits(id);
    h.subrange(0, 8) + seq!['-'] + h.subrange(8, 12) + seq!['-'] + h.subrange(12, 16) + seq!['-']
        + h.subrange(16, 20) + seq!['-'] + h.subrange(20, 32)
}

/// Calls `uuid::Uuid::from_u128(id).to_string()`. The contract claims what the uuid
/// crate documents: the big-endian value written in lowercase hex, hyphenated.
#[verifier::external_body]
pub(crate) fn uuid_text(id: u128) -> (r: String)
    ensures
        r@ == uuid_text_spec(id),
{
    uuid::Uuid::from_u128(id).to_string()
}

/// Whether `c` is a character that `sanitize_filename` removes on every platform:
/// one of `/ ? < > \ : * | "` or a control character.
pub open spec fn unsafe_name_char(c: char) -> bool {
    c == '/' || c == '?' || c == '<' || c == '>' || c == '\\' || c == ':' || c == '*' || c == '|'
        || c == '"' || (c as u32) <= 0x1f || (0x80 <= (c as u32) <= 0x9f)
}

/// The number of bytes `c` takes in UTF-8.
pub open spec fn utf8_width(c: char) -> nat {
    if (c as u32) < 0x80 {
        1
    } else if (c as u32) < 0x800 {
        2
    } else if (c as u32) < 0x10000 {
        3
    } else {
        4
    }
}

/// The number of bytes `s` takes in UTF-8.
pub open spec fn utf8_len(s: Seq<char>) -> nat
    decreases s.len(),
{
    if s.len() == 0 {
        0
    } else {
        utf8_len(s.drop_last()) + utf8_width(s.last())
    }
}

/// Whether `s` starts with the three characters `a`, `b`, `c`, in any ASCII case
/// (`a`, `b`, `c` are ASCII small letters).
pub open spec fn starts_ci(s: Seq<char>, a: char, b: char, c: char) -> bool {
    s.len() >= 3 && ascii_lower(s[0]) == a && ascii_lower(s[1]) == b && ascii_lower(s[2]) == c
}

/// Whether `s` is a device name that Windows reserves, in any ASCII case, alone or
/// followed by '.' and anything: con, prn, aux, nul, or com or lpt followed by one
/// digit. (No other character matches these letters case-insensitively.)
pub open spec fn reserved_name(s: Seq<char>) -> bool {
    ||| (starts_ci(s, 'c', 'o', 'n') || starts_ci(s, 'p', 'r', 'n') || starts_ci(s, 'a', 'u', 'x')
        || starts_ci(s, 'n', 'u', 'l')) && (s.len() == 3 || s[3] == '.')
    ||| (starts_ci(s, 'c', 'o', 'm') || starts_ci(s, 'l', 'p', 't')) && s.len() >= 4 && '0'
        <= s[3] <= '9' && (s.len() == 4 || s[4] == '.')
}

/// `s` with every character of `unsafe_name_char` taken out.
pub open spec fn strip_unsafe(s: Seq<char>) -> Seq<char>
    decreases s.len(),
{
    if s.len() == 0 {
        s
    } else if unsafe_name_char(s.last()) {
        strip_unsafe(s.drop_last())
    } else {
        strip_unsafe(s.drop_last()).push(s.last())
    }
}

/// Whether `s` is one or more '.' and nothing else.
pub open spec fn only_dots(s: Seq<char>) -> bool {
    s.len() > 0 && forall|i: int| 0 <= i < s.len() ==> #[trigger] s[i] == '.'
}

/// `s`, or nothing when it is only dots.
pub open spec fn drop_if_dots(s: Seq<char>) -> Seq<char> {
    if only_dots(s) {
        Seq::empty()
    } else {
        s
    }
}

/// `s` without the run of '.' and ' ' at its end.
pub open spec fn trim_dots_spaces_end(s: Seq<char>) -> Seq<char>
    decreases s.len(),
{
    if s.len() > 0 && (s.last() == '.' || s.last() == ' ') {
        trim_dots_spaces_end(s.drop_last())
    } else {
        s
    }
}

/// The longest start of `s` that takes at most 255 bytes in UTF-8.
pub open spec fn cut_to_255_bytes(s: Seq<char>) -> Seq<char>
    decreases s.len(),
{
    if utf8_len(s) <= 255 || s.len() == 0 {
        s
    } else {
        cut_to_255_bytes(s.drop_last())
    }
}

/// What `sanitize_filename::sanitize` makes of `s` where it is built for a system other
/// than Windows: the unsafe characters taken out, nothing left of a name of only dots,
/// and the rest cut to 255 bytes.
pub open spec fn unix_clean(s: Seq<char>) -> Seq<char> {
    cut_to_255_bytes(drop_if_dots(strip_unsafe(s)))
}

/// What `sanitize_filename::sanitize` makes of `s` where it is built for Windows: as
/// elsewhere, but a reserved device name also leaves nothing, and the run of '.' and ' '
/// at the end goes, before the cut to 255 bytes.
pub open spec fn windows_clean(s: Seq<char>) -> Seq<char> {
    let t = drop_if_dots(strip_unsafe(s));
    cut_to_255_bytes(trim_dots_spaces_end(if reserved_name(t) { Seq::empty() } else { t }))
}

/// Whether `sanitize_filename` leaves `s` as it is on every platform: no character of
/// `unsafe_name_char`, not only dots, no trailing '.' or space, no reserved device name,
/// and at most 255 bytes.
pub open spec fn kept_by_sanitize(s: Seq<char>) -> bool {
    &&& forall|i: int| 0 <= i < s.len() ==> !unsafe_name_char(#[trigger] s[i])
    &&& (s.len() == 0 || (s.last() != '.' && s.last() != ' '))
    &&& !reserved_name(s)
    &&& utf8_len(s) <= 255
}

/// Whether `a` is a start of `b`.
pub open spec fn starts_of(a: Seq<char>, b: Seq<char>) -> bool {
    a.len() <= b.len() && b.take(a.len() as int) == a
}

/// Calls `sanitize_filename::sanitize`. Its source takes out every character of
/// `unsafe_name_char`, empties a name of only dots, and, where `cfg!(windows)` holds,
/// empties a reserved device name and takes off a trailing run of '.' and ' '; then it
/// cuts the name to 255 bytes at a character boundary. Which of the two outcomes comes
/// depends only on the platform the crate was built for, so the contract claims that the
/// result is one of them.
#[verifier::external_body]
fn sanitize(name: &str) -> (r: String)
    ensures
        r@ == unix_clean(name@) || r@ == windows_clean(name@),
{
    sanitize_filename::sanitize(name)
}

/// The text an upload's name is made from: its file name, or "file.bin" when it has none.
pub open spec fn upload_name_source(file_name: Option<&str>) -> Seq<char> {
    match file_name {
        Some(n) => n@,
        None => "file.bin"@,
    }
}

/// The name an upload is stored under: its file name made safe, or "file.bin" when the
/// upload has no file name.
pub fn upload_file_name(file_name: Option<&str>) -> (r: String)
    ensures
        r@ == unix_clean(upload_name_source(file_name)) || r@ == windows_clean(
            upload_name_source(file_name),
        ),
        starts_of(r@, strip_unsafe(upload_name_source(file_name))),
        forall|i: int| 0 <= i < r@.len() ==> !unsafe_name_char(#[trigger] r@[i]),
        r@.len() <= 255,
        utf8_len(r@) <= 255,
        only_dots(strip_unsafe(upload_name_source(file_name))) ==> r@ == Seq::<char>::empty(),
        kept_by_sanitize(strip_unsafe(upload_name_source(file_name))) ==> r@ == strip_unsafe(
            upload_name_source(file_name),
        ),
        kept_by_sanitize(upload_name_source(file_name)) ==> r@ == upload_name_source(file_name),
        file_name.is_none() ==> r@ == "file.bin"@,
{
    let name = match file_name {
        Some(n) => n,
        None => "file.bin",
    };
    proof {
        if file_name.is_none() {
            lemma_default_name_kept();
        }
        lemma_strip_unsafe_kept(name@);
        lemma_clean_facts(name@);
    }
    sanitize(name)
}

proof fn lemma_strip_unsafe_kept(s: Seq<char>)
    ensures
        (forall|i: int| 0 <= i < s.len() ==> !unsafe_name_char(#[trigger] s[i])) ==> strip_unsafe(s)
            == s,
        forall|i: int|
            0 <= i < strip_unsafe(s).len() ==> !unsafe_name_char(#[trigger] strip_unsafe(s)[i]),
    decreases s.len(),
{
    if s.len() > 0 {
        lemma_strip_unsafe_kept(s.drop_last());
        let t = strip_unsafe(s);
        let u = strip_unsafe(s.drop_last());
        assert forall|i: int| 0 <= i < t.len() implies !unsafe_name_char(#[trigger] t[i]) by {
            if i < u.len() {
                assert(t[i] == u[i]);
            }
        }
        if forall|i: int| 0 <= i < s.len() ==> !unsafe_name_char(#[trigger] s[i]) {
            assert(!unsafe_name_char(s[s.len() - 1]));
            assert forall|i: int| 0 <= i < s.drop_last().len() implies !unsafe_name_char(
                #[trigger] s.drop_last()[i],
            ) by {
                assert(s.drop_last()[i] == s[i]);
            }
            assert(s.drop_last().push(s.last()) =~= s);
        }
    }
}

proof fn lemma_starts_of_trans(a: Seq<char>, b: Seq<char>, c: Seq<char>)
    requires
        starts_of(a, b),
        starts_of(b, c),
    ensures
        starts_of(a, c),
{
    assert(c.take(a.len() as int) =~= c.take(b.len() as int).take(a.len() as int));
}

proof fn lemma_trim_dots_spaces_end(s: Seq<char>)
    ensures
        starts_of(trim_dots_spaces_end(s), s),
    decreases s.len(),
{
    if s.len() > 0 && (s.last() == '.' || s.last() == ' ') {
        lemma_trim_dots_spaces_end(s.drop_last());
        assert(starts_of(s.drop_last(), s)) by {
            assert(s.take(s.len() - 1) =~= s.drop_last());
        }
        lemma_starts_of_trans(trim_dots_spaces_end(s.drop_last()), s.drop_last(), s);
    } else {
        assert(s.take(s.len() as int) =~= s);
    }
}

proof fn lemma_utf8_len_at_least_len(s: Seq<char>)
    ensures
        s.len() <= utf8_len(s),
    decreases s.len(),
{
    if s.len() > 0 {
        lemma_utf8_len_at_least_len(s.drop_last());
    }
}

proof fn lemma_cut_to_255_bytes(s: Seq<char>)
    ensures
        starts_of(cut_to_255_bytes(s), s),
        utf8_len(cut_to_255_bytes(s)) <= 255,
    decreases s.len(),
{
    if utf8_len(s) <= 255 || s.len() == 0 {
        assert(s.take(s.len() as int) =~= s);
    } else {
        lemma_cut_to_255_bytes(s.drop_last());
        assert(starts_of(s.drop_last(), s)) by {
            assert(s.take(s.len() - 1) =~= s.drop_last());
        }
        lemma_starts_of_trans(cut_to_255_bytes(s.drop_last()), s.drop_last(), s);
    }
}

/// What both outcomes of `sanitize` have in common: a start of the name without its
/// unsafe characters, at most 255 bytes, nothing of a name of only dots, and the name
/// itself where it is kept.
proof fn lemma_clean_facts(s: Seq<char>)
    ensures
        forall|r: Seq<char>|
            #![trigger starts_of(r, strip_unsafe(s))]
            r == unix_clean(s) || r == windows_clean(s) ==> {
                &&& starts_of(r, strip_unsafe(s))
                &&& forall|i: int| 0 <= i < r.len() ==> !unsafe_name_char(#[trigger] r[i])
                &&& r.len() <= 255
                &&& utf8_len(r) <= 255
                &&& only_dots(strip_unsafe(s)) ==> r == Seq::<char>::empty()
                &&& kept_by_sanitize(strip_unsafe(s)) ==> r == strip_unsafe(s)
            },
{
    let u = strip_unsafe(s);
    lemma_strip_unsafe_kept(s);
    let t = drop_if_dots(u);
    assert(starts_of(t, u)) by {
        assert(u.take(u.len() as int) =~= u);
        assert(u.take(0) =~= Seq::<char>::empty());
    }
    let e = Seq::<char>::empty();
    let w0 = if reserved_name(t) { e } else { t };
    assert(starts_of(w0, t)) by {
        assert(t.take(t.len() as int) =~= t);
        assert(t.take(0) =~= e);
    }
    lemma_trim_dots_spaces_end(w0);
    let w1 = trim_dots_spaces_end(w0);
    lemma_starts_of_trans(w1, w0, t);
    lemma_starts_of_trans(w1, t, u);
    lemma_cut_to_255_bytes(t);
    lemma_cut_to_255_bytes(w1);
    lemma_starts_of_trans(unix_clean(s), t, u);
    lemma_starts_of_trans(windows_clean(s), w1, u);
    lemma_utf8_len_at_least_len(unix_clean(s));
    lemma_utf8_len_at_least_len(windows_clean(s));
    assert forall|r: Seq<char>|
        #![trigger starts_of(r, strip_unsafe(s))]
        r == unix_clean(s) || r == windows_clean(s) implies {
        &&& starts_of(r, strip_unsafe(s))
        &&& forall|i: int| 0 <= i < r.len() ==> !unsafe_name_char(#[trigger] r[i])
        &&& r.len() <= 255
        &&& utf8_len(r) <= 255
        &&& only_dots(strip_unsafe(s)) ==> r == Seq::<char>::empty()
        &&& kept_by_sanitize(strip_unsafe(s)) ==> r == strip_unsafe(s)
    } by {
        assert forall|i: int| 0 <= i < r.len() implies !unsafe_name_char(#[trigger] r[i]) by {
            assert(r[i] == u.take(r.len() as int)[i]);
            assert(r[i] == u[i]);
        }
        if only_dots(u) {
            assert(t == e);
            assert(!reserved_name(e));
            assert(trim_dots_spaces_end(e) == e);
            assert(utf8_len(e) == 0);
        }
        if kept_by_sanitize(u) {
            if u.len() > 0 {
                assert(u[u.len() - 1] != '.');
            }
            assert(t == u);
            assert(trim_dots_spaces_end(u) == u);
        }
    }
}

proof fn lemma_default_name_kept()
    ensures
        kept_by_sanitize("file.bin"@),
{
    reveal_strlit("file.bin");
    let s = "file.bin"@;
    assert(s.len() == 8);
    assert(s[0] == 'f' && s[1] == 'i' && s[2] == 'l' && s[3] == 'e' && s[7] == 'n');
    assert(!reserved_name(s));
    reveal_with_fuel(utf8_len, 9);
    assert(utf8_len(s) == 8) by {
        assert(s.take(8) =~= s);
        assert(s.drop_last() =~= s.take(7));
        assert(s.take(7).drop_last() =~= s.take(6));
        assert(s.take(6).drop_last() =~= s.take(5));
        assert(s.take(5).drop_last() =~= s.take(4));
        assert(s.take(4).drop_last() =~= s.take(3));
        assert(s.take(3).drop_last() =~= s.take(2));
        assert(s.take(2).drop_last() =~= s.take(1));
        assert(s.take(1).drop_last() =~= s.take(0));
    }
}

/// `n` in decimal, with a leading zero when it has one digit (`{:02}`).
pub open spec fn two_digits(n: nat) -> Seq<char> {
    if n < 10 {
        seq!['0'] + decimal(n)
    } else {
        decimal(n)
    }
}

/// `y` in decimal, with a minus sign when negative (`{}`).
pub open spec fn signed_decimal(y: int) -> Seq<char> {
    if y < 0 {
        seq!['-'] + decimal((-y) as nat)
    } else {
        decimal(y as nat)
    }
}

fn push_two_digits(s: &mut String, n: u8)
    ensures
        final(s)@ == old(s)@ + two_digits(n as nat),
{
    if n < 10 {
        push_char(s, '0');
    }
    push_decimal(s, n as usize);
    assert(final(s)@ =~= old(s)@ + two_digits(n as nat));
}

fn push_signed(s: &mut String, y: i32)
    ensures
        final(s)@ == old(s)@ + signed_decimal(y as int),
{
    if y < 0 {
        push_char(s, '-');
        let m: i64 = -(y as i64);
        push_decimal(s, m as usize);
    } else {
        push_decimal(s, y as usize);
    }
    assert(final(s)@ =~= old(s)@ + signed_decimal(y as int));
}

/// The date as the file page shows it: MM/DD/YEAR.
pub fn format_date(date: &CalendarDate) -> (r: String)
    ensures
        r@ == two_digits(date.month as nat) + seq!['/'] + two_digits(date.day as nat) + seq!['/']
            + signed_decimal(date.year as int),
{
    let mut r = String::new();
    push_two_digits(&mut r, date.month);
    push_char(&mut r, '/');
    push_two_digits(&mut r, date.day);
    push_char(&mut r, '/');
    push_signed(&mut r, date.year);
    r
}

/// Where an uploaded file is filed: UPLOAD_PATH/YEAR/MM-DD/UUID.
pub fn blob_path(upload_path: &str, date: &CalendarDate, id: u128) -> (r: String)
    ensures
        r@ == upload_path@ + seq!['/'] + signed_decimal(date.year as int) + seq!['/'] + two_digits(
            date.month as nat,
        ) + seq!['-'] + two_digits(date.day as nat) + seq!['/'] + uuid_text_spec(id),
{
    let mut r = String::from_str(upload_path);
    push_char(&mut r, '/');
    push_signed(&mut r, date.year);
    push_char(&mut r, '/');
    push_two_digits(&mut r, date.month);
    push_char(&mut r, '-');
    push_two_digits(&mut r, date.day);
    push_char(&mut r, '/');
    let u = uuid_text(id);
    r.append(u.as_str());
    r
}

/// Where the file page's download button points: /api/uploads/ID/download.
pub fn download_url(upload_id: &str) -> (r: String)
    ensures
        r@ == "/api/uploads/"@ + upload_id@ + "/download"@,
{
    let mut r = String::from_str("/api/uploads/");
    r.append(upload_id);
    r.append("/download");
    r
}

/// The title of a file's page: "avafiles • NAME".
pub fn file_page_title(original_name: &str) -> (r: String)
    ensures
        r@ == "avafiles \u{2022} "@ + original_name@,
{
    let mut r = String::from_str("avafiles \u{2022} ");
    r.append(original_name);
    r
}

/// Why a request of the upload service failed.
pub enum ApiError {
    NotFound,
    Database,
    Multipart,
    Io,
    NoFile,
}

/// How a failed request is answered: a status and a text, or the multipart
/// error's own answer.
pub enum ErrorReply {
    Plain { status: u16, body: &'static str },
    OwnReply,
}

impl ApiError {
    /// The error for a failed database query: a query that found no row is "not found".
    pub fn from_database(row_not_found: bool) -> (r: ApiError)
        ensures
            r == if row_not_found {
                ApiError::NotFound
            } else {
                ApiError::Database
            },
    {
        if row_not_found {
            ApiError::NotFound
        } else {
            ApiError::Database
        }
    }

    /// How the error is answered.
    pub fn reply(&self) -> (r: ErrorReply)
        ensures
            match self {
                ApiError::NotFound => r matches ErrorReply::Plain { status, body } && status == 404
                    && body@ == "Not found"@,
                ApiError::Database => r matches ErrorReply::Plain { status, body } && status == 500
                    && body@ == "Internal server error"@,
                ApiError::Multipart => r matches ErrorReply::OwnReply,
                ApiError::Io => r matches ErrorReply::Plain { status, body } && status == 500
                    && body@ == "Error while uploading file"@,
                ApiError::NoFile => r matches ErrorReply::Plain { status, body } && status == 404
                    && body@ == "No file in multipart request"@,
            },
    {
        match self {
            ApiError::NotFound => ErrorReply::Plain { status: 404, body: "Not found" },
            ApiError::Database => ErrorReply::Plain { status: 500, body: "Internal server error" },
            ApiError::Multipart => ErrorReply::OwnReply,
            ApiError::Io => ErrorReply::Plain { status: 500, body: "Error while uploading file" },
            ApiError::NoFile => ErrorReply::Plain {
                status: 404,
                body: "No file in multipart request",
            },
        }
    }
}

/// The blake3 hash of `data`.
pub uninterp spec fn blake3_digest(data: Seq<u8>) -> Seq<u8>;

/// The bytes that were fed to a blake3 hasher.
pub uninterp spec fn hasher_input(h: blake3::Hasher) -> Seq<u8>;

#[verifier::external_type_specification]
#[verifier::external_body]
pub struct ExHasher(blake3::Hasher);

/// Calls `blake3::Hasher::new`: a hasher that has been fed nothing.
#[verifier::external_body]
fn hasher_new() -> (h: blake3::Hasher)
    ensures
        hasher_input(h) == Seq::<u8>::empty(),
{
    blake3::Hasher::new()
}

/// Calls `blake3::Hasher::update`: the hasher has been fed `data` after what it had.
#[verifier::external_body]
fn hasher_update(h: &mut blake3::Hasher, data: &[u8])
    ensures
        hasher_input(*final(h)) == hasher_input(*old(h)) + data@,
{
    h.update(data);
}

/// Calls `blake3::Hasher::finalize`: as blake3 documents, the hash of all the input
/// fed so far.
#[verifier::external_body]
fn hasher_finalize(h: &blake3::Hasher) -> (r: [u8; 32])
    ensures
        r@ == blake3_digest(hasher_input(*h)),
{
    *h.finalize().as_bytes()
}

/// The blake3 hash of an upload, fed chunk by chunk.
pub struct ContentHasher {
    hasher: blake3::Hasher,
}

impl ContentHasher {
    /// The bytes fed so far.
    pub closed spec fn input(&self) -> Seq<u8> {
        hasher_input(self.hasher)
    }

    /// A hasher that has been fed nothing.
    pub fn new() -> (r: ContentHasher)
        ensures
            r.input() == Seq::<u8>::empty(),
    {
        ContentHasher { hasher: hasher_new() }
    }

    /// Feeds `chunk` after what was fed before.
    pub fn update(&mut self, chunk: &[u8])
        ensures
            final(self).input() == old(self).input() + chunk@,
    {
        hasher_update(&mut self.hasher, chunk);
    }

    /// The hash of everything fed so far.
    pub fn finalize(&self) -> (r: [u8; 32])
        ensures
            r@ == blake3_digest(self.input()),
    {
        hasher_finalize(&self.hasher)
    }
}

} // verus!
