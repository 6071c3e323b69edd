//! Calibrating a mono camera from marks on the court: the picture that is
//! clicked on, the page it is shown in, and what is made of the clicks.
use crate::court_points::CourtPoint;
use crate::double::F64;
use crate::mono_optimizer::PointCorrespondence;
use crate::text::{chars_of, decimal, push_decimal, same_text, trim, trim_range};
use crate::whole::Toward;
use vstd::prelude::*;
use vstd::string::{StrSliceExecFns, StringExecFns};

verus! {

/// The number of the frame at a time, at so many frames in a second.
pub fn frame_at(seconds: F64, fps: F64) -> (r: u64)
    ensures
        r == seconds.times(fps).as_whole(Toward::Nearest),
{
    seconds.mul(fps).round_to_u64()
}

/// Where the clicked points come from.
#[derive(Clone, Copy, Debug)]
pub enum PointSource<'a> {
    /// A file that was saved before.
    File(&'a str),
    /// A vision model.
    Model(&'a str),
    /// The user, in a browser.
    Browser,
}

/// Where the clicked points come from: a file if one is given, else a model if
/// one is given, else the user.
pub fn point_source<'a>(file: Option<&'a str>, model: Option<&'a str>) -> (r: PointSource<'a>)
    ensures
        match (file, model) {
            (Some(f), _) => r == PointSource::File(f),
            (None, Some(m)) => r == PointSource::Model(m),
            (None, None) => r is Browser,
        },
{
    match file {
        Some(f) => PointSource::File(f),
        None => match model {
            Some(m) => PointSource::Model(m),
            None => PointSource::Browser,
        },
    }
}

/// With fewer points there are too many unknowns.
pub const LEAST_POINTS: usize = 8;

/// What is said of too few points.
pub open spec fn too_few(n: nat) -> Seq<char> {
    "only "@ + decimal(n) + " points available - need at least 8 for a stable solve (9 unknowns)"@
}

/// Whether there are enough points, and if not, what is said of it.
pub fn check_point_count(n: usize) -> (r: Result<(), String>)
    ensures
        if n >= LEAST_POINTS {
            r is Ok
        } else {
            r matches Err(e) && e@ == too_few(n as nat)
        },
{
    if n >= LEAST_POINTS {
        Ok(())
    } else {
        let mut e: String = String::from_str("only ");
        push_decimal(&mut e, n as u64);
        e.append(" points available - need at least 8 for a stable solve (9 unknowns)");
        Err(e)
    }
}

/// The bits of the error from which a result is not to be trusted, in pixels.
pub const HIGH_ERROR: u64 = 0x402E_0000_0000_0000;

/// Whether the error of a result, in pixels, is too high to trust it.
pub fn error_is_high(mean_reprojection_error_px: F64) -> (r: bool)
    ensures
        r == (F64 { bits: HIGH_ERROR }).below(mean_reprojection_error_px),
{
    F64::from_bits(HIGH_ERROR).lt(mean_reprojection_error_px)
}

/// A clicked point: which one, and where in the frame, from zero to one.
#[derive(Clone, Debug)]
pub struct ClickedPoint {
    pub label: String,
    pub x: F64,
    pub y: F64,
}

/// The first mark with a label, from the `i`-th on.
pub open spec fn mark_from(known: Seq<CourtPoint>, label: Seq<char>, i: int) -> Option<CourtPoint>
    decreases known.len() - i,
{
    if i < 0 || i >= known.len() {
        None
    } else if known[i].label@ == label {
        Some(known[i])
    } else {
        mark_from(known, label, i + 1)
    }
}

/// The clicked points whose labels are known, in order, with their marks.
pub open spec fn matched(clicked: Seq<ClickedPoint>, known: Seq<CourtPoint>) -> Seq<
    (CourtPoint, F64, F64),
>
    decreases clicked.len(),
{
    if clicked.len() == 0 {
        seq![]
    } else {
        let before = matched(clicked.drop_last(), known);
        let c = clicked.last();
        match mark_from(known, c.label@, 0) {
            Some(k) => before.push((k, c.x, c.y)),
            None => before,
        }
    }
}

/// Correspondences as marks and places.
pub open spec fn pairs(v: Seq<PointCorrespondence>) -> Seq<(CourtPoint, F64, F64)> {
    v.map_values(|p: PointCorrespondence| (p.court_point, p.pixel@[0], p.pixel@[1]))
}

fn find_mark(known: &Vec<CourtPoint>, label: &String) -> (r: Option<CourtPoint>)
    ensures
        r == mark_from(known@, label@, 0),
{
    let mut i: usize = 0;
    while i < known.len()
        invariant
            i <= known@.len(),
            mark_from(known@, label@, 0) == mark_from(known@, label@, i as int),
        decreases known@.len() - i,
    {
        if same_text(label.as_str(), known[i].label) {
            return Some(known[i]);
        }
        i += 1;
    }
    None
}

/// What is said where no label is known.
pub open spec fn nothing_matched() -> Seq<char> {
    "no clicked points matched known labels"@
}

/// Matches clicked points with the marks they name; those that name none are
/// left out, and it is an error if none is left.
pub fn match_clicked_to_known(clicked: &Vec<ClickedPoint>, known: &Vec<CourtPoint>) -> (r: Result<
    Vec<PointCorrespondence>,
    String,
>)
    ensures
        if matched(clicked@, known@).len() == 0 {
            r matches Err(e) && e@ == nothing_matched()
        } else {
            r matches Ok(v) && pairs(v@) == matched(clicked@, known@)
        },
{
    let mut out: Vec<PointCorrespondence> = Vec::new();
    let mut i: usize = 0;
    assert(clicked@.take(0) =~= seq![]);
    assert(pairs(out@) =~= seq![]);
    while i < clicked.len()
        invariant
            i <= clicked@.len(),
            pairs(out@) == matched(clicked@.take(i as int), known@),
        decreases clicked@.len() - i,
    {
        assert(clicked@.take(i + 1).drop_last() =~= clicked@.take(i as int));
        let c = &clicked[i];
        let ghost before = out@;
        match find_mark(known, &c.label) {
            Some(court_point) => {
                out.push(PointCorrespondence { court_point, pixel: [c.x, c.y] });
                assert(pairs(out@) =~= pairs(before).push((court_point, c.x, c.y)));
            },
            None => {},
        }
        i += 1;
    }
    assert(clicked@.take(i as int) =~= clicked@);
    assert(pairs(out@).len() == out@.len());
    if out.len() == 0 {
        Err(String::from_str("no clicked points matched known labels"))
    } else {
        Ok(out)
    }
}

/// What is solved from clicked points: those that name known marks, if enough
/// were clicked.
pub fn points_to_solve(clicked: &Vec<ClickedPoint>, known: &Vec<CourtPoint>) -> (r: Result<
    Vec<PointCorrespondence>,
    String,
>)
    ensures
        if clicked@.len() < LEAST_POINTS {
            r matches Err(e) && e@ == too_few(clicked@.len())
        } else if matched(clicked@, known@).len() == 0 {
            r matches Err(e) && e@ == nothing_matched()
        } else {
            r matches Ok(v) && pairs(v@) == matched(clicked@, known@)
        },
{
    match check_point_count(clicked.len()) {
        Err(e) => Err(e),
        Ok(_) => match_clicked_to_known(clicked, known),
    }
}

/// What a line that the user typed is taken for.
#[derive(Clone, Debug)]
pub enum TypedLine {
    /// The input ended.
    Closed,
    /// Nothing was typed: ask again.
    Empty,
    /// The points themselves.
    Json(String),
    /// A file that holds them.
    Path(String),
}

/// What a line is taken for, given how many bytes were read for it. White
/// space around it does not count.
pub fn read_typed_line(bytes_read: usize, input: &str) -> (r: TypedLine)
    ensures
        if bytes_read == 0 {
            r is Closed
        } else if trim(input@).len() == 0 {
            r is Empty
        } else if trim(input@)[0] == '{' {
            r matches TypedLine::Json(s) && s@ == trim(input@)
        } else {
            r matches TypedLine::Path(s) && s@ == trim(input@)
        },
{
    if bytes_read == 0 {
        return TypedLine::Closed;
    }
    let v: Vec<char> = chars_of(input);
    assert(v@.subrange(0, v@.len() as int) =~= v@);
    let (a, b): (usize, usize) = trim_range(&v, 0, v.len());
    if a >= b {
        return TypedLine::Empty;
    }
    let text: String = input.substring_char(a, b).to_owned();
    if v[a] == '{' {
        TypedLine::Json(text)
    } else {
        TypedLine::Path(text)
    }
}

/// A text without any of a character at its end.
pub open spec fn without_trailing(s: Seq<char>, c: char) -> Seq<char>
    decreases s.len(),
{
    if s.len() > 0 && s.last() == c {
        without_trailing(s.drop_last(), c)
    } else {
        s
    }
}

/// The address at which a vision model is asked, at the given endpoint.
pub fn generate_url(endpoint: &str) -> (r: String)
    ensures
        r@ == without_trailing(endpoint@, '/') + "/api/generate"@,
{
    let v: Vec<char> = chars_of(endpoint);
    let mut n: usize = v.len();
    assert(v@.take(n as int) =~= v@);
    while n > 0 && v[n - 1] == '/'
        invariant
            n <= v@.len(),
            without_trailing(v@, '/') == without_trailing(v@.take(n as int), '/'),
        decreases n,
    {
        assert(v@.take(n as int).drop_last() =~= v@.take(n - 1));
        n -= 1;
    }
    let mut url: String = endpoint.substring_char(0, n).to_owned();
    assert(endpoint@.subrange(0, n as int) =~= v@.take(n as int));
    url.append("/api/generate");
    url
}

/// The labels of marks.
pub open spec fn labels_of(points: Seq<CourtPoint>) -> Seq<Seq<char>> {
    points.map_values(|p: CourtPoint| p.label@)
}

/// Texts with another between each two.
pub open spec fn joined(words: Seq<Seq<char>>, between: Seq<char>) -> Seq<char>
    decreases words.len(),
{
    if words.len() == 0 {
        seq![]
    } else if words.len() == 1 {
        words[0]
    } else {
        joined(words.drop_last(), between) + between + words.last()
    }
}

/// The labels of marks, with a comma between each two.
pub fn list_labels(points: &Vec<CourtPoint>) -> (r: String)
    ensures
        r@ == joined(labels_of(points@), ", "@),
{
    let mut s: String = String::from_str("");
    proof {
        reveal_strlit("");
        assert(s@ =~= Seq::<char>::empty());
    }
    let mut i: usize = 0;
    let ghost all = labels_of(points@);
    while i < points.len()
        invariant
            i <= points@.len(),
            all == labels_of(points@),
            s@ == joined(all.take(i as int), ", "@),
        decreases points@.len() - i,
    {
        let ghost before = s@;
        if i > 0 {
            s.append(", ");
        }
        s.append(points[i].label);
        proof {
            let next = all.take(i + 1);
            assert(next.drop_last() =~= all.take(i as int));
            assert(next.last() == points@[i as int].label@);
            if i == 0 {
                assert(s@ =~= next[0]);
            } else {
                assert(s@ =~= before + ", "@ + next.last());
            }
        }
        i += 1;
    }
    assert(all.take(i as int) =~= all);
    s
}

/// What stands before the labels in the question to a vision model.
pub const PROMPT_HEAD: &'static str =
    "You are analyzing a single frame from a ceiling-mounted camera above a basketball court. The lens may have strong fisheye/barrel distortion, so court lines can appear curved rather than straight.\n\nIdentify the pixel location of as many of these labeled court reference points as are visible. Naming convention:\n- \"halfway-left\"/\"halfway-right\": where the center line meets the two sidelines.\n- \"center-circle-N\" (N in degrees 0..315): points around the center circle.\n- \"far-*\"/\"near-*\": the same set of points at each basket end - you choose which end is \"far\" vs \"near\", but be consistent across every far-*/near-* label:\n  - \"-corner-left\"/\"-corner-right\": that end's two baseline corners.\n  - \"-key-baseline-left\"/\"-key-baseline-right\": where the free-throw lane meets the baseline.\n  - \"-key-freethrow-left\"/\"-key-freethrow-right\": the lane's two corners at the free-throw line.\n  - \"-basket\": the point on the floor directly under the basket.\n  - \"-3pt-a\"/\"-3pt-mid\"/\"-3pt-b\": three points along the three-point arc (mid = straight out from the basket toward mid-court; a/b = left/right of that).\nFor \"left\"/\"right\", use whichever side is on the left/right of THIS image, but stay consistent across every point.\n\nLabels to locate: ";

/// What stands behind the labels in the question to a vision model.
pub const PROMPT_TAIL: &'static str =
    "\n\nRespond with ONLY a JSON array, no other text, in exactly this form:\n[{\"label\": \"halfway-left\", \"x\": 0.12, \"y\": 0.55}, ...]\nwhere x and y are the point's position as a fraction of image width/height (0.0 = left/top edge, 1.0 = right/bottom edge). Omit any label not visible in the frame. Do not invent labels outside the given list.";

/// The question to a vision model where the marks are.
pub fn prompt_for(points: &Vec<CourtPoint>) -> (r: String)
    ensures
        r@ == PROMPT_HEAD@ + joined(labels_of(points@), ", "@) + PROMPT_TAIL@,
{
    let labels: String = list_labels(points);
    let mut s: String = String::from_str(PROMPT_HEAD);
    s.append(labels.as_str());
    s.append(PROMPT_TAIL);
    s
}

/// The letter of six bits in base 64.
pub open spec fn base64_letter(bits: int) -> char {
    if bits < 26 {
        ('A' as int + bits) as char
    } else if bits < 52 {
        ('a' as int + (bits - 26)) as char
    } else if bits < 62 {
        ('0' as int + (bits - 52)) as char
    } else if bits == 62 {
        '+'
    } else {
        '/'
    }
}

/// Byte number `i`, or zero behind the last.
pub open spec fn byte_at(data: Seq<u8>, i: int) -> int {
    if i < data.len() {
        data[i] as int
    } else {
        0
    }
}

/// Six bits of the bytes, from bit number `6 * i` on, the highest bit of each
/// byte first.
pub open spec fn six_bits(data: Seq<u8>, i: int) -> int {
    let first = 6 * i / 8;
    let skipped = 6 * i % 8;
    let behind = if skipped == 0 {
        1024int
    } else if skipped == 2 {
        256
    } else if skipped == 4 {
        64
    } else {
        16
    };
    (byte_at(data, first) * 256 + byte_at(data, first + 1)) / behind % 64
}

/// What bytes read in base 64: a letter for every six bits begun, filled up to
/// fours.
pub open spec fn base64_of(data: Seq<u8>) -> Seq<char> {
    Seq::new(
        4 * ((data.len() + 2) / 3),
        |i: int|
            if 6 * i < 8 * data.len() {
                base64_letter(six_bits(data, i))
            } else {
                '='
            },
    )
}

/// Calls `encode` of `base64::engine::general_purpose::STANDARD`: the bytes in
/// base 64, with the standard alphabet and padding. The text must fit into
/// memory, or the call panics.
#[verifier::external_body]
fn encode_base64(data: &Vec<u8>) -> (r: String)
    requires
        4 * ((data@.len() + 2) / 3) <= isize::MAX,
    ensures
        r@ == base64_of(data@),
{
    base64::Engine::encode(&base64::engine::general_purpose::STANDARD, data)
}

/// A picture as an address that holds it.
pub fn picture_uri(png: &Vec<u8>) -> (r: String)
    requires
        4 * ((png@.len() + 2) / 3) <= isize::MAX,
    ensures
        r@ == "data:image/png;base64,"@ + base64_of(png@),
{
    let text: String = encode_base64(png);
    uri_of(&text)
}

/// A picture as an address that holds it, given its bytes in base 64.
pub fn uri_of(base64: &String) -> (r: String)
    ensures
        r@ == "data:image/png;base64,"@ + base64@,
{
    let mut uri: String = String::from_str("data:image/png;base64,");
    uri.append(base64.as_str());
    uri
}

/// What a vision model is asked: the question, and the pictures it is about in
/// base 64.
#[derive(Clone, Debug)]
pub struct GenerateRequest {
    pub model: String,
    pub prompt: String,
    pub images: Vec<String>,
    /// How the answer is to be written.
    pub format: &'static str,
    /// Whether the answer may come in pieces.
    pub stream: bool,
}

/// Asks a model where in a picture the marks are. The answer is to come in JSON,
/// all at once.
pub fn generate_request(png: &Vec<u8>, known: &Vec<CourtPoint>, model: &str) -> (r: GenerateRequest)
    requires
        4 * ((png@.len() + 2) / 3) <= isize::MAX,
    ensures
        r.model@ == model@,
        r.prompt@ == PROMPT_HEAD@ + joined(labels_of(known@), ", "@) + PROMPT_TAIL@,
        r.images@.len() == 1,
        r.images@[0]@ == base64_of(png@),
        r.format@ == "json"@,
        !r.stream,
{
    let mut images: Vec<String> = Vec::new();
    images.push(encode_base64(png));
    GenerateRequest {
        model: String::from_str(model),
        prompt: prompt_for(known),
        images,
        format: "json",
        stream: false,
    }
}

/// What `serde_json` refuses to write.
#[verifier::external_type_specification]
#[verifier::external_body]
pub struct ExJsonError(serde_json::Error);

/// The contents of texts.
pub open spec fn words(v: Seq<&'static str>) -> Seq<Seq<char>> {
    v.map_values(|s: &'static str| s@)
}

/// A digit in base 16.
pub open spec fn hex_digit(n: int) -> char {
    if n < 10 {
        ('0' as int + n) as char
    } else {
        ('a' as int + (n - 10)) as char
    }
}

/// A character inside a text in JSON.
pub open spec fn json_char(c: char) -> Seq<char> {
    let n = c as int;
    if c == '"' || c == '\\' {
        seq!['\\', c]
    } else if n == 8 {
        seq!['\\', 'b']
    } else if n == 9 {
        seq!['\\', 't']
    } else if n == 10 {
        seq!['\\', 'n']
    } else if n == 12 {
        seq!['\\', 'f']
    } else if n == 13 {
        seq!['\\', 'r']
    } else if n < 32 {
        seq!['\\', 'u', '0', '0', hex_digit(n / 16), hex_digit(n % 16)]
    } else {
        seq![c]
    }
}

/// The characters of a text in JSON.
pub open spec fn json_chars(text: Seq<char>) -> Seq<char>
    decreases text.len(),
{
    if text.len() == 0 {
        seq![]
    } else {
        json_chars(text.drop_last()) + json_char(text.last())
    }
}

/// A list of texts in JSON.
pub open spec fn json_of(list: Seq<Seq<char>>) -> Seq<char> {
    let quoted = list.map_values(|text: Seq<char>| seq!['"'] + json_chars(text) + seq!['"']);
    seq!['['] + joined(quoted, seq![',']) + seq![']']
}

/// Calls `serde_json::to_string` on a list of texts, which can always be
/// written: the texts in quotes and escaped, with commas between them.
#[verifier::external_body]
fn write_json(list: &Vec<&'static str>) -> (r: Result<String, serde_json::Error>)
    ensures
        r is Ok && r->Ok_0@ == json_of(words(list@)),
{
    serde_json::to_string(list)
}

/// The labels of marks as a list in JSON.
pub fn labels_json(points: &Vec<CourtPoint>) -> (r: Result<String, EditorError>)
    ensures
        r matches Ok(s) && s@ == json_of(labels_of(points@)),
{
    let mut labels: Vec<&'static str> = Vec::new();
    let mut i: usize = 0;
    while i < points.len()
        invariant
            i <= points@.len(),
            labels@.len() == i,
            forall|k: int| 0 <= k < i ==> #[trigger] labels@[k]@ == points@[k].label@,
        decreases points@.len() - i,
    {
        labels.push(points[i].label);
        i += 1;
    }
    assert(words(labels@) =~= labels_of(points@));
    match write_json(&labels) {
        Ok(s) => Ok(s),
        Err(e) => Err(EditorError::Json(e)),
    }
}

/// A text occurs in another at the given place.
pub open spec fn occurs_at(s: Seq<char>, pattern: Seq<char>, i: int) -> bool {
    i + pattern.len() <= s.len() && s.subrange(i, i + pattern.len()) == pattern
}

/// A text with each occurrence of a pattern replaced, from the left, none
/// overlapping another.
pub open spec fn replaced(s: Seq<char>, pattern: Seq<char>, with: Seq<char>) -> Seq<char>
    decreases s.len(),
{
    if s.len() == 0 || pattern.len() == 0 {
        s
    } else if occurs_at(s, pattern, 0) {
        with + replaced(s.skip(pattern.len() as int), pattern, with)
    } else {
        seq![s[0]] + replaced(s.skip(1), pattern, with)
    }
}

fn occurs(v: &Vec<char>, pattern: &Vec<char>, i: usize) -> (r: bool)
    requires
        i <= v@.len(),
    ensures
        r == occurs_at(v@, pattern@, i as int),
{
    let n: usize = pattern.len();
    let total: usize = v.len();
    if n > total - i {
        return false;
    }
    let mut k: usize = 0;
    while k < n
        invariant
            k <= n,
            n == pattern@.len(),
            total == v@.len(),
            i + n <= total,
            v@.subrange(i as int, i + k) =~= pattern@.take(k as int),
        decreases n - k,
    {
        if v[i + k] != pattern[k] {
            proof {
                assert(v@.subrange(i as int, i + n)[k as int] == v@[i + k]);
            }
            return false;
        }
        proof {
            assert(v@.subrange(i as int, i + k + 1) =~= v@.subrange(i as int, i + k).push(
                v@[i + k],
            ));
            assert(pattern@.take(k + 1) =~= pattern@.take(k as int).push(pattern@[k as int]));
        }
        k += 1;
    }
    assert(pattern@.take(k as int) =~= pattern@);
    true
}

/// A text with each occurrence of a pattern replaced.
pub fn replace_all(text: &str, pattern: &str, with: &str) -> (r: String)
    requires
        pattern@.len() > 0,
    ensures
        r@ == replaced(text@, pattern@, with@),
{
    let v: Vec<char> = chars_of(text);
    let p: Vec<char> = chars_of(pattern);
    let n: usize = v.len();
    let m: usize = p.len();
    let mut out: String = String::from_str("");
    let mut from: usize = 0;
    let mut i: usize = 0;
    proof {
        reveal_strlit("");
        assert(out@ + v@.subrange(0, 0) =~= Seq::<char>::empty());
        assert(v@.skip(0) =~= v@);
        assert(replaced(v@, p@, with@) =~= (out@ + v@.subrange(0, 0)) + replaced(v@, p@, with@));
    }
    while i < n
        invariant
            from <= i <= n,
            n == v@.len(),
            m == p@.len(),
            m > 0,
            v@ == text@,
            p@ == pattern@,
            replaced(v@, p@, with@) == (out@ + v@.subrange(from as int, i as int)) + replaced(
                v@.skip(i as int),
                p@,
                with@,
            ),
        decreases n - i,
    {
        let ghost rest = v@.skip(i as int);
        let ghost done = out@ + v@.subrange(from as int, i as int);
        proof {
            if i + m <= n {
                assert(rest.subrange(0, m as int) =~= v@.subrange(i as int, i + m));
            }
            assert(occurs_at(rest, p@, 0) == occurs_at(v@, p@, i as int));
        }
        if occurs(&v, &p, i) {
            out.append(text.substring_char(from, i));
            out.append(with);
            i += m;
            from = i;
            proof {
                assert(rest.skip(m as int) =~= v@.skip(i as int));
                assert(v@.subrange(from as int, i as int) =~= Seq::<char>::empty());
                assert(out@ =~= done + with@);
                let tail = replaced(v@.skip(i as int), p@, with@);
                assert(done + (with@ + tail) =~= (out@ + v@.subrange(from as int, i as int))
                    + tail);
            }
        } else {
            i += 1;
            proof {
                assert(rest.skip(1) =~= v@.skip(i as int));
                let tail = replaced(v@.skip(i as int), p@, with@);
                assert(v@.subrange(from as int, i as int) =~= v@.subrange(from as int, i - 1)
                    + seq![rest[0]]);
                assert(done + (seq![rest[0]] + tail) =~= (out@ + v@.subrange(
                    from as int,
                    i as int,
                )) + tail);
            }
        }
    }
    out.append(text.substring_char(from, n));
    proof {
        assert(v@.skip(n as int) =~= Seq::<char>::empty());
        assert(out@ =~= replaced(v@, p@, with@));
    }
    out
}

/// The page in which the picture is shown, made of a template.
pub open spec fn page(
    template: Seq<char>,
    picture: Seq<char>,
    width: u32,
    height: u32,
    labels: Seq<char>,
) -> Seq<char> {
    let a = replaced(template, "{{IMAGE_DATA}}"@, picture);
    let b = replaced(a, "{{IMAGE_WIDTH}}"@, decimal(width as nat));
    let c = replaced(b, "{{IMAGE_HEIGHT}}"@, decimal(height as nat));
    replaced(c, "{{POINT_LABELS_JSON}}"@, labels)
}

fn number_text(n: u32) -> (r: String)
    ensures
        r@ == decimal(n as nat),
{
    let mut s: String = String::from_str("");
    push_decimal(&mut s, n as u64);
    proof {
        reveal_strlit("");
        assert(s@ =~= decimal(n as nat));
    }
    s
}

/// The page in which the picture is shown, made of a template.
pub fn write_editor_html(
    template: &str,
    picture: &str,
    width: u32,
    height: u32,
    labels: &str,
) -> (r: String)
    ensures
        r@ == page(template@, picture@, width, height, labels@),
{
    proof {
        reveal_strlit("{{IMAGE_DATA}}");
        reveal_strlit("{{IMAGE_WIDTH}}");
        reveal_strlit("{{IMAGE_HEIGHT}}");
        reveal_strlit("{{POINT_LABELS_JSON}}");
    }
    let a: String = replace_all(template, "{{IMAGE_DATA}}", picture);
    let b: String = replace_all(a.as_str(), "{{IMAGE_WIDTH}}", number_text(width).as_str());
    let c: String = replace_all(b.as_str(), "{{IMAGE_HEIGHT}}", number_text(height).as_str());
    replace_all(c.as_str(), "{{POINT_LABELS_JSON}}", labels)
}

/// What `image` refuses to write.
#[verifier::external_type_specification]
#[verifier::external_body]
pub struct ExImageError(image::ImageError);

/// Why the picture or its page cannot be made.
pub enum EditorError {
    Json(serde_json::Error),
    Png(image::ImageError),
}

/// The bits of how much red there is in the second colour difference.
pub const RED: u64 = 0x3FF9_3261_7C1B_DA51;

/// The bits of how much green the first colour difference takes away.
pub const GREEN_BLUE: u64 = 0x3FC7_F972_4745_38EF;

/// The bits of how much green the second colour difference takes away.
pub const GREEN_RED: u64 = 0x3FDD_F559_B3D0_7C85;

/// The bits of how much blue there is in the first colour difference.
pub const BLUE: u64 = 0x3FFD_B089_A027_5254;

/// Brightness or colour difference in full range: without its offset, and
/// stretched.
pub open spec fn full_range(x: u8, offset: nat, span: nat) -> F64 {
    F64::of_whole(x as nat).minus(F64::of_whole(offset)).times(
        F64::of_whole(255).over(F64::of_whole(span)),
    )
}

/// One colour of a pixel.
pub open spec fn colour(y: u8, u: u8, v: u8, channel: int) -> F64 {
    let yy = full_range(y, 16, 219);
    let cb = full_range(u, 128, 224);
    let cr = full_range(v, 128, 224);
    if channel == 0 {
        yy.plus((F64 { bits: RED }).times(cr))
    } else if channel == 1 {
        yy.minus((F64 { bits: GREEN_BLUE }).times(cb)).minus((F64 { bits: GREEN_RED }).times(cr))
    } else {
        yy.plus((F64 { bits: BLUE }).times(cb))
    }
}

/// A colour as a byte, limited to what a byte holds.
pub open spec fn as_byte(x: F64) -> u8 {
    let n = x.clamped(F64::of_whole(0), F64::of_whole(255)).as_whole(Toward::Down);
    if n > 255 {
        255
    } else {
        n as u8
    }
}

/// How many colour differences there are for so many pixels in a line.
pub open spec fn halved(n: u32) -> int {
    (n as int + 1) / 2
}

/// Byte `i` of the picture in colours, of a frame in brightness and colour
/// differences: three for each pixel, row by row.
pub open spec fn rgb_byte(y: Seq<u8>, u: Seq<u8>, v: Seq<u8>, width: u32, i: int) -> u8 {
    let p = i / 3;
    let row = p / width as int;
    let column = p % width as int;
    let c = (row / 2) * halved(width) + column / 2;
    as_byte(colour(y[p], u[c], v[c], i % 3))
}

/// A frame's planes are long enough for its size.
pub open spec fn planes_suffice(y: nat, u: nat, v: nat, width: u32, height: u32) -> bool {
    &&& width * height <= y
    &&& halved(width) * halved(height) <= u
    &&& halved(width) * halved(height) <= v
}

fn stretch(x: u8, offset: u64, span: u64) -> (r: F64)
    ensures
        r == full_range(x, offset as nat, span as nat),
{
    let scale = F64::from_whole(255).div(F64::from_whole(span));
    F64::from_whole(x as u64).sub(F64::from_whole(offset)).mul(scale)
}

fn to_byte(x: F64) -> (r: u8)
    ensures
        r == as_byte(x),
{
    let lo = F64::from_whole(0);
    let hi = F64::from_whole(255);
    let x = if x.lt(lo) {
        lo
    } else if hi.lt(x) {
        hi
    } else {
        x
    };
    let n: u64 = x.truncate_to_u64();
    if n > 255 {
        255
    } else {
        n as u8
    }
}

/// The picture in colours of a frame in brightness and colour differences.
pub open spec fn rgb_of(y: Seq<u8>, u: Seq<u8>, v: Seq<u8>, width: u32, height: u32) -> Seq<u8> {
    Seq::new((width * height * 3) as nat, |i: int| rgb_byte(y, u, v, width, i))
}

/// The picture in colours of a frame in brightness and colour differences.
pub fn yuv420p_to_rgb(y: &Vec<u8>, u: &Vec<u8>, v: &Vec<u8>, width: u32, height: u32) -> (r: Vec<
    u8,
>)
    requires
        planes_suffice(y@.len(), u@.len(), v@.len(), width, height),
        width * height * 3 <= usize::MAX,
    ensures
        r@ == rgb_of(y@, u@, v@, width, height),
{
    let (w, h): (usize, usize) = (width as usize, height as usize);
    proof {
        assert(w * h <= w * h * 3) by (nonlinear_arith)
            requires
                0 <= w,
                0 <= h,
        ;
    }
    let n: usize = w * h;
    let chroma_w: usize = w / 2 + w % 2;
    let mut rgb: Vec<u8> = Vec::new();
    let mut p: usize = 0;
    while p < n
        invariant
            p <= n,
            n == width * height,
            w == width,
            h == height,
            chroma_w == halved(width),
            planes_suffice(y@.len(), u@.len(), v@.len(), width, height),
            rgb@.len() == 3 * p,
            forall|i: int|
                0 <= i < 3 * p ==> #[trigger] rgb@[i] == rgb_byte(y@, u@, v@, width, i),
        decreases n - p,
    {
        proof {
            assert(w > 0) by (nonlinear_arith)
                requires
                    p < n,
                    n == w * h,
                    p >= 0,
                    w >= 0,
            ;
        }
        let row: usize = p / w;
        let column: usize = p % w;
        let ghost c = (row as int / 2) * halved(width) + column as int / 2;
        proof {
            vstd::arithmetic::div_mod::lemma_fundamental_div_mod(p as int, w as int);
            assert(row < h) by (nonlinear_arith)
                requires
                    p == w * row + column,
                    p < w * h,
                    column >= 0,
                    w > 0,
            ;
            let a = row as int / 2;
            let half_w = halved(width);
            let half_h = halved(height);
            assert(a + 1 <= half_h);
            assert(column as int / 2 < half_w);
            assert(a * half_w + half_w <= half_w * half_h) by (nonlinear_arith)
                requires
                    a + 1 <= half_h,
                    half_w >= 0,
            ;
            assert(0 <= a * half_w) by (nonlinear_arith)
                requires
                    0 <= a,
                    0 <= half_w,
            ;
            assert(c < half_w * half_h);
            assert(u.len() == u@.len());
        }
        let k: usize = (row / 2) * chroma_w + column / 2;
        let yy = stretch(y[p], 16, 219);
        let cb = stretch(u[k], 128, 224);
        let cr = stretch(v[k], 128, 224);
        let red = yy.add(F64::from_bits(RED).mul(cr));
        let green = yy.sub(F64::from_bits(GREEN_BLUE).mul(cb)).sub(
            F64::from_bits(GREEN_RED).mul(cr),
        );
        let blue = yy.add(F64::from_bits(BLUE).mul(cb));
        let ghost before = rgb@;
        rgb.push(to_byte(red));
        rgb.push(to_byte(green));
        rgb.push(to_byte(blue));
        proof {
            assert((3 * p) / 3 == p && (3 * p) % 3 == 0);
            assert((3 * p + 1) / 3 == p && (3 * p + 1) % 3 == 1);
            assert((3 * p + 2) / 3 == p && (3 * p + 2) % 3 == 2);
            assert(rgb@[3 * p] == rgb_byte(y@, u@, v@, width, 3 * p));
            assert(rgb@[3 * p + 1] == rgb_byte(y@, u@, v@, width, 3 * p + 1));
            assert(rgb@[3 * p + 2] == rgb_byte(y@, u@, v@, width, 3 * p + 2));
        }
        p += 1;
    }
    assert(width * height * 3 == 3 * n) by (nonlinear_arith)
        requires
            n == width * height,
    ;
    assert(rgb@ =~= rgb_of(y@, u@, v@, width, height));
    rgb
}

/// A picture in colours as a PNG file, unless it cannot be written.
pub uninterp spec fn png_of(rgb: Seq<u8>, width: u32, height: u32) -> Option<Seq<u8>>;

/// Calls `image::write_buffer_with_format` for eight-bit colours and PNG, into
/// memory: whether the picture can be written, and the bytes of the file, are a
/// function of its colours and size alone. The colours must be as many as the
/// size says, or the call panics.
#[verifier::external_body]
fn encode_png(rgb: &Vec<u8>, width: u32, height: u32) -> (r: Result<Vec<u8>, image::ImageError>)
    requires
        rgb@.len() == width * height * 3,
    ensures
        match r {
            Ok(png) => png_of(rgb@, width, height) == Some(png@),
            Err(_) => png_of(rgb@, width, height) is None,
        },
{
    let mut png: Vec<u8> = Vec::new();
    let mut cursor = std::io::Cursor::new(&mut png);
    let colours = image::ExtendedColorType::Rgb8;
    let format = image::ImageFormat::Png;
    image::write_buffer_with_format(&mut cursor, rgb, width, height, colours, format)?;
    Ok(png)
}

/// A frame in brightness and colour differences as a PNG file.
pub fn yuv420p_to_png(y: &Vec<u8>, u: &Vec<u8>, v: &Vec<u8>, width: u32, height: u32) -> (r: Result<
    Vec<u8>,
    EditorError,
>)
    requires
        planes_suffice(y@.len(), u@.len(), v@.len(), width, height),
        width * height * 3 <= usize::MAX,
    ensures
        match r {
            Ok(png) => png_of(rgb_of(y@, u@, v@, width, height), width, height) == Some(png@),
            Err(e) => png_of(rgb_of(y@, u@, v@, width, height), width, height) is None && e is Png,
        },
{
    let rgb: Vec<u8> = yuv420p_to_rgb(y, u, v, width, height);
    match encode_png(&rgb, width, height) {
        Ok(png) => Ok(png),
        Err(e) => Err(EditorError::Png(e)),
    }
}

/// A point that names a mark is never lost: the clicked points whose labels are
/// known all come through, and no others.
pub proof fn law_known_points_come_through(clicked: Seq<ClickedPoint>, known: Seq<CourtPoint>)
    ensures
        matched(clicked, known).len() <= clicked.len(),
        (forall|i: int|
            0 <= i < clicked.len() ==> mark_from(known, (#[trigger] clicked[i]).label@, 0) is Some)
            ==> matched(clicked, known).len() == clicked.len(),
        (forall|i: int|
            0 <= i < clicked.len() ==> mark_from(known, (#[trigger] clicked[i]).label@, 0) is None)
            ==> matched(clicked, known).len() == 0,
    decreases clicked.len(),
{
    if clicked.len() > 0 {
        let rest = clicked.drop_last();
        law_known_points_come_through(rest, known);
        assert(forall|i: int| 0 <= i < rest.len() ==> rest[i] == clicked[i]);
        assert(clicked.last() == clicked[clicked.len() - 1]);
        if forall|i: int|
            0 <= i < clicked.len() ==> mark_from(known, (#[trigger] clicked[i]).label@, 0) is Some {
            assert forall|i: int| 0 <= i < rest.len() implies mark_from(
                known,
                (#[trigger] rest[i]).label@,
                0,
            ) is Some by {
                assert(rest[i] == clicked[i]);
            }
        }
        if forall|i: int|
            0 <= i < clicked.len() ==> mark_from(known, (#[trigger] clicked[i]).label@, 0) is None {
            assert forall|i: int| 0 <= i < rest.len() implies mark_from(
                known,
                (#[trigger] rest[i]).label@,
                0,
            ) is None by {
                assert(rest[i] == clicked[i]);
            }
        }
    }
}

} // verus!
