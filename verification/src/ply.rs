//! What a splat import reads from the header of a PLY file.
use vstd::prelude::*;

verus! {

/// Why the splat count of a PLY file cannot be given.
#[derive(Clone, Copy, Debug, PartialEq, Eq, Structural)]
pub enum PlyError {
    /// A line of the header that starts with `e` or `f`, as the `element` and
    /// `format` lines do, holds a number above `u64::MAX` behind a blank, a
    /// tab or a dot. The header parser reads the numbers of these lines into
    /// 64 bits and cannot take a greater one.
    NumberTooLong,
    /// The header cannot be parsed.
    BadHeader,
    /// The header declares no element named `vertex`.
    NoVertexElement,
    /// The `vertex` element lacks one of the properties that every splat
    /// has.
    MissingProperties,
    /// The `vertex` element has no instance.
    NoSplats,
}

/// One element declaration of a PLY header: its name, the number of its
/// instances in the payload, and the names of its properties.
#[derive(Debug)]
pub struct PlyElement {
    pub name: String,
    pub count: usize,
    pub properties: Vec<String>,
}

/// What the contracts read of an element: name, count and property names.
pub type ElementView = (Seq<char>, usize, Seq<Seq<char>>);

/// `b` is an ASCII decimal digit.
pub open spec fn is_digit(b: u8) -> bool {
    0x30 <= b <= 0x39
}

/// `b` is a blank, a tab or a dot: what stands before a number where the
/// header parser reads one.
pub open spec fn opens_number(b: u8) -> bool {
    b == 0x20 || b == 0x09 || b == 0x2e
}

/// The place behind the digits that stand in `line` from `from` on; `from`
/// itself where no digit stands there.
pub open spec fn run_end(line: Seq<u8>, from: int) -> int
    decreases line.len() - from,
{
    if from < 0 || from >= line.len() || !is_digit(line[from]) {
        from
    } else {
        run_end(line, from + 1)
    }
}

/// The number that the digits `from..to` of `line` spell.
pub open spec fn decimal_value(line: Seq<u8>, from: int, to: int) -> int
    decreases to - from,
{
    if to <= from {
        0
    } else {
        decimal_value(line, from, to - 1) * 10 + (line[to - 1] - 0x30)
    }
}

/// The number that is written in `line` from `p` on: all the digits that
/// stand there, leading zeros or not.
pub open spec fn number_at(line: Seq<u8>, p: int) -> int {
    decimal_value(line, p, run_end(line, p))
}

/// A number starts at `p` where the parser may read one: a digit stands
/// there, behind a blank, a tab or a dot.
pub open spec fn number_starts(line: Seq<u8>, p: int) -> bool {
    1 <= p < line.len() && opens_number(line[p - 1]) && is_digit(line[p])
}

/// Every number of `line` that stands behind a blank, a tab or a dot fits in
/// 64 bits.
pub open spec fn line_numbers_fit(line: Seq<u8>) -> bool {
    forall|p: int| #[trigger] number_starts(line, p) ==> number_at(line, p) <= u64::MAX
}

/// Length of the word `end_header`.
pub const END_MARK_LEN: usize = 10;

/// The word `end_header`, with which the last line of a header starts.
pub open spec fn end_mark() -> Seq<u8> {
    seq![0x65u8, 0x6e, 0x64, 0x5f, 0x68, 0x65, 0x61, 0x64, 0x65, 0x72]
}

/// The bytes of `data` from `at` on start with the word `end_header`.
pub open spec fn starts_mark(data: Seq<u8>, at: int) -> bool {
    &&& at + END_MARK_LEN <= data.len()
    &&& forall|k: int| 0 <= k < END_MARK_LEN ==> data[at + k] == #[trigger] end_mark()[k]
}

/// The place behind the line that `from` lies in: behind the next line feed,
/// or the length of `data` where none follows.
pub open spec fn line_end(data: Seq<u8>, from: int) -> int
    decreases data.len() - from,
{
    if from >= data.len() {
        data.len() as int
    } else if data[from] == 0x0a {
        from + 1
    } else {
        line_end(data, from + 1)
    }
}

/// The place behind the first line that starts with `end_header`, among the
/// lines from the one that starts at `start` on; the length of `data` where
/// there is none.
pub open spec fn header_end_from(data: Seq<u8>, start: int) -> int
    decreases data.len() - start,
{
    if start >= data.len() {
        data.len() as int
    } else {
        let next = line_end(data, start);
        if starts_mark(data, start) || next <= start || next > data.len() {
            next
        } else {
            header_end_from(data, next)
        }
    }
}

/// The place behind the first line of `data` that starts with `end_header`;
/// the length of `data` where there is none. A header parser that reads line
/// by line reads no byte behind this place.
pub open spec fn header_end(data: Seq<u8>) -> int {
    header_end_from(data, 0)
}

/// The part of `data` that a header parser reads.
pub open spec fn header_part(data: Seq<u8>) -> Seq<u8> {
    data.take(header_end(data))
}

/// A line that starts with this byte may be a `format` or an `element` line,
/// the two kinds of line in which the header parser reads numbers: the byte
/// is `e` or `f`.
pub open spec fn opens_number_line(b: u8) -> bool {
    b == 0x65 || b == 0x66
}

/// Among the lines from the one that starts at `start` on, every line that
/// starts with `e` or `f` holds only numbers that fit in 64 bits, where it
/// holds numbers behind a blank, a tab or a dot.
pub open spec fn number_lines_fit_from(data: Seq<u8>, start: int) -> bool
    decreases data.len() - start,
{
    if start >= data.len() {
        true
    } else {
        let next = line_end(data, start);
        let fits = opens_number_line(data[start]) ==> line_numbers_fit(
            data.subrange(start, next),
        );
        if next <= start || next > data.len() {
            fits
        } else {
            fits && number_lines_fit_from(data, next)
        }
    }
}

/// No number that the header parser may read is too large for it.
///
/// The parser reads numbers in `element` and `format` lines: the count of an
/// element, behind blanks, and the two parts of the format's version, behind
/// blanks and behind a dot. So in every line of `data` that starts with `e`
/// or `f`, every number that stands behind a blank, a tab or a dot has to fit
/// in 64 bits, however many digits spell it. Other numbers, and lines of
/// other kinds, are free.
pub open spec fn number_lines_fit(data: Seq<u8>) -> bool {
    number_lines_fit_from(data, 0)
}

/// The element declarations that the header of the PLY file `data` holds, in
/// the order in which the payload lists them, each with its name, its count
/// and the names of its properties; `None` where `data` does not start with a
/// header that parses.
pub uninterp spec fn ply_header_elements(data: Seq<u8>) -> Option<
    Seq<(Seq<char>, usize, Seq<Seq<char>>)>,
>;

/// The texts of `names`.
pub open spec fn name_views(names: Seq<String>) -> Seq<Seq<char>> {
    Seq::new(names.len(), |j: int| names[j]@)
}

/// Name, count and property names of one element.
pub open spec fn element_view(element: PlyElement) -> ElementView {
    (element.name@, element.count, name_views(element.properties@))
}

/// Name, count and property names of every element.
pub open spec fn element_views(elements: Seq<PlyElement>) -> Seq<ElementView> {
    Seq::new(elements.len(), |i: int| element_view(elements[i]))
}

/// The place of the first of the first `upto` elements that is named
/// `vertex`.
pub open spec fn first_vertex_upto(elements: Seq<ElementView>, upto: int) -> Option<int>
    decreases upto,
{
    if upto <= 0 {
        None
    } else {
        match first_vertex_upto(elements, upto - 1) {
            Some(i) => Some(i),
            None => if elements[upto - 1].0 == "vertex"@ {
                Some(upto - 1)
            } else {
                None
            },
        }
    }
}

/// The place of the first element that is named `vertex`.
pub open spec fn first_vertex(elements: Seq<ElementView>) -> Option<int> {
    first_vertex_upto(elements, elements.len() as int)
}

/// The count of the first element that is named `vertex`.
pub open spec fn vertex_count_of(elements: Seq<ElementView>) -> Option<usize> {
    match first_vertex(elements) {
        Some(i) => Some(elements[i].1),
        None => None,
    }
}

/// The properties that the `vertex` element of a splat file must have:
/// position, scale, opacity and rotation.
pub open spec fn required_properties() -> Seq<Seq<char>> {
    seq![
        "x"@,
        "y"@,
        "z"@,
        "scale_0"@,
        "scale_1"@,
        "scale_2"@,
        "opacity"@,
        "rot_0"@,
        "rot_1"@,
        "rot_2"@,
        "rot_3"@,
    ]
}

/// `names` holds every one of the first `upto` required properties.
pub open spec fn has_required_upto(names: Seq<Seq<char>>, upto: int) -> bool {
    forall|k: int| 0 <= k < upto ==> names.contains(#[trigger] required_properties()[k])
}

/// `names` holds every required property.
pub open spec fn has_required(names: Seq<Seq<char>>) -> bool {
    has_required_upto(names, required_properties().len() as int)
}

/// What [`splat_header`] returns for a file whose numbers fit, given what
/// the header parser made of its header.
pub open spec fn splats_from_header(header: Option<Seq<ElementView>>) -> Result<usize, PlyError> {
    match header {
        None => Err(PlyError::BadHeader),
        Some(elements) => match first_vertex(elements) {
            None => Err(PlyError::NoVertexElement),
            Some(i) => if !has_required(elements[i].2) {
                Err(PlyError::MissingProperties)
            } else if elements[i].1 == 0 {
                Err(PlyError::NoSplats)
            } else {
                Ok(elements[i].1)
            },
        },
    }
}

/// What [`ply_count`] returns for a file whose numbers fit, given what the
/// header parser made of its header.
pub open spec fn count_from_header(header: Option<Seq<ElementView>>) -> Result<
    usize,
    PlyError,
> {
    match header {
        None => Err(PlyError::BadHeader),
        Some(elements) => match vertex_count_of(elements) {
            Some(n) => Ok(n),
            None => Err(PlyError::NoVertexElement),
        },
    }
}

/// Calls `ply_rs::parser::Parser::read_header` on the bytes of a file, and
/// copies out the name, the count and the property names of every element
/// that the header declares, in the header's order. Nothing is proved of the
/// parser: the contract only gives its result a name, which is sound because
/// the parser reads nothing but the bytes. It returns an error for a header
/// that does not follow the PLY grammar. It panics where it reads a number
/// whose value does not fit in 64 bits. It reads numbers at three places
/// only: the count of an `element` line, which stands behind blanks or tabs,
/// and the two parts of the version in a `format` line, the first behind
/// blanks or tabs and the second behind a dot. It takes the lines apart at
/// line feeds. So the inputs left out are those that hold, in a line that
/// starts with `e` or `f`, a number above `u64::MAX` behind a blank, a tab or
/// a dot.
#[verifier::external_body]
fn read_header_elements(data: &[u8]) -> (r: Option<Vec<PlyElement>>)
    requires
        number_lines_fit(data@),
    ensures
        match r {
            Some(elements) => ply_header_elements(data@) == Some(element_views(elements@)),
            None => ply_header_elements(data@) is None,
        },
{
    let mut reader = std::io::Cursor::new(data);
    let parser = ply_rs::parser::Parser::<ply_rs::ply::DefaultElement>::new();
    match parser.read_header(&mut reader) {
        Ok(header) => Some(
            header.elements.iter().map(
                |(_, e)|
                    PlyElement {
                        name: e.name.clone(),
                        count: e.count,
                        properties: e.properties.iter().map(|(k, _)| k.clone()).collect(),
                    },
            ).collect(),
        ),
        Err(_) => None,
    }
}

/// Whether the bytes of `data` from `at` on start with the word `end_header`.
fn at_end_mark(data: &[u8], at: usize) -> (found: bool)
    requires
        at <= data.len(),
    ensures
        found == starts_mark(data@, at as int),
{
    let mark: [u8; 10] = [0x65, 0x6e, 0x64, 0x5f, 0x68, 0x65, 0x61, 0x64, 0x65, 0x72];
    assert(mark@ =~= end_mark());
    if data.len() - at < END_MARK_LEN {
        return false;
    }
    let mut k: usize = 0;
    while k < END_MARK_LEN
        invariant
            k <= END_MARK_LEN,
            at + END_MARK_LEN <= data.len(),
            mark@ == end_mark(),
            forall|j: int| 0 <= j < k ==> data@[at + j] == #[trigger] end_mark()[j],
        decreases END_MARK_LEN - k,
    {
        if data[at + k] != mark[k] {
            assert(data@[at + k] != end_mark()[k as int]);
            return false;
        }
        k += 1;
    }
    true
}

/// The place behind the line that `from` lies in.
fn find_line_end(data: &[u8], from: usize) -> (end: usize)
    requires
        from <= data.len(),
    ensures
        end == line_end(data@, from as int),
        from <= end <= data.len(),
        from < data.len() ==> from < end,
{
    let n = data.len();
    let mut j: usize = from;
    while j < n
        invariant
            from <= j <= n,
            n == data.len(),
            line_end(data@, from as int) == line_end(data@, j as int),
        decreases n - j,
    {
        if data[j] == 0x0a {
            return j + 1;
        }
        j += 1;
    }
    n
}

/// Length of the part of `data` that a header parser reads: up to and with
/// the first line that starts with `end_header`.
pub fn header_len(data: &[u8]) -> (n: usize)
    ensures
        n == header_end(data@),
        n <= data.len(),
{
    let len = data.len();
    let mut start: usize = 0;
    while start < len
        invariant
            start <= len,
            len == data.len(),
            header_end(data@) == header_end_from(data@, start as int),
        decreases len - start,
    {
        let marked = at_end_mark(data, start);
        let end = find_line_end(data, start);
        if marked {
            return end;
        }
        start = end;
    }
    len
}

/// Whether no number that the header parser may read in `data` is too large
/// for it: see [`number_lines_fit`].
pub fn check_number_lines(data: &[u8]) -> (ok: bool)
    ensures
        ok == number_lines_fit(data@),
{
    let len = data.len();
    let mut start: usize = 0;
    while start < len
        invariant
            start <= len,
            len == data.len(),
            number_lines_fit(data@) == number_lines_fit_from(data@, start as int),
        decreases len - start,
    {
        let end = find_line_end(data, start);
        let first = data[start];
        if first == 0x65 || first == 0x66 {
            let line = vstd::slice::slice_subrange(data, start, end);
            if !check_line_numbers(line) {
                return false;
            }
        }
        start = end;
    }
    true
}

/// The part of `data` that a header parser reads.
fn header_of(data: &[u8]) -> (header: &[u8])
    ensures
        header@ == header_part(data@),
{
    let n = header_len(data);
    vstd::slice::slice_subrange(data, 0, n)
}

/// The digits from `from` to the end of their run are digits indeed, and the
/// run ends inside the line.
proof fn lemma_run_is_digits(line: Seq<u8>, from: int)
    requires
        0 <= from <= line.len(),
    ensures
        from <= run_end(line, from) <= line.len(),
        forall|k: int| from <= k < run_end(line, from) ==> is_digit(#[trigger] line[k]),
    decreases line.len() - from,
{
    if from < line.len() && is_digit(line[from]) {
        lemma_run_is_digits(line, from + 1);
    }
}

/// A number grows with every further digit.
proof fn lemma_value_grows(line: Seq<u8>, from: int, to1: int, to2: int)
    requires
        0 <= from <= to1 <= to2 <= line.len(),
        forall|k: int| from <= k < to2 ==> is_digit(#[trigger] line[k]),
    ensures
        0 <= decimal_value(line, from, to1) <= decimal_value(line, from, to2),
    decreases to2,
{
    if to1 < to2 {
        lemma_value_grows(line, from, to1, to2 - 1);
        assert(is_digit(line[to2 - 1]));
    } else if from < to1 {
        lemma_value_grows(line, from, to1 - 1, to2 - 1);
        assert(is_digit(line[to1 - 1]));
    }
}

/// Whether the number that is written in `line` from `p` on fits in 64 bits.
fn number_fits(line: &[u8], p: usize) -> (ok: bool)
    requires
        p <= line.len(),
    ensures
        ok == (number_at(line@, p as int) <= u64::MAX),
{
    let n = line.len();
    let mut acc: u64 = 0;
    let mut j: usize = p;
    let mut going: bool = true;
    while going
        invariant
            p <= j <= n,
            n == line.len(),
            forall|k: int| p <= k < j ==> is_digit(#[trigger] line@[k]),
            run_end(line@, p as int) == run_end(line@, j as int),
            acc == decimal_value(line@, p as int, j as int),
            !going ==> run_end(line@, j as int) == j,
        decreases n - j + if going { 1int } else { 0int },
    {
        if j >= n {
            going = false;
        } else {
            let b = line[j];
            if b < 0x30 || b > 0x39 {
                going = false;
            } else {
                let d: u64 = (b - 0x30) as u64;
                if acc > (0xffff_ffff_ffff_ffff - d) / 10 {
                    proof {
                        lemma_run_is_digits(line@, p as int);
                        lemma_run_is_digits(line@, j + 1);
                        lemma_value_grows(line@, p as int, j + 1, run_end(line@, p as int));
                    }
                    return false;
                }
                acc = acc * 10 + d;
                j += 1;
            }
        }
    }
    true
}

/// Whether every number of `line` that stands behind a blank, a tab or a dot
/// fits in 64 bits.
pub fn check_line_numbers(line: &[u8]) -> (ok: bool)
    ensures
        ok == line_numbers_fit(line@),
{
    let n = line.len();
    let mut p: usize = 1;
    while p < n
        invariant
            1 <= p,
            n == line.len(),
            forall|q: int|
                q < p && #[trigger] number_starts(line@, q) ==> number_at(line@, q) <= u64::MAX,
        decreases n - p,
    {
        let before = line[p - 1];
        let b = line[p];
        if (before == 0x20 || before == 0x09 || before == 0x2e) && 0x30 <= b && b <= 0x39 {
            if !number_fits(line, p) {
                assert(number_starts(line@, p as int));
                return false;
            }
        }
        p += 1;
    }
    true
}

/// The place of the first element that is named `vertex`, if there is one.
pub fn find_vertex(elements: &Vec<PlyElement>) -> (r: Option<usize>)
    ensures
        match r {
            Some(i) => first_vertex(element_views(elements@)) == Some(i as int) && i
                < elements.len(),
            None => first_vertex(element_views(elements@)) is None,
        },
{
    let target = "vertex".to_owned();
    let ghost views = element_views(elements@);
    let n = elements.len();
    let mut i: usize = 0;
    while i < n
        invariant
            i <= n,
            n == elements.len(),
            target@ == "vertex"@,
            views == element_views(elements@),
            first_vertex_upto(views, i as int) is None,
        decreases n - i,
    {
        if elements[i].name == target {
            assert(views[i as int].0 == "vertex"@);
            assert(first_vertex_upto(views, i + 1) == Some(i as int));
            proof {
                lemma_vertex_found(views, i + 1, n as int);
            }
            return Some(i);
        }
        i += 1;
    }
    None
}

/// The count of the first element that is named `vertex`, if there is one.
pub fn vertex_count(elements: &Vec<PlyElement>) -> (r: Option<usize>)
    ensures
        r == vertex_count_of(element_views(elements@)),
{
    match find_vertex(elements) {
        Some(i) => Some(elements[i].count),
        None => None,
    }
}

/// Once a `vertex` element is found, later elements do not change the place.
proof fn lemma_vertex_found(elements: Seq<ElementView>, k: int, upto: int)
    requires
        0 <= k <= upto,
        first_vertex_upto(elements, k) is Some,
    ensures
        first_vertex_upto(elements, upto) == first_vertex_upto(elements, k),
    decreases upto - k,
{
    if k < upto {
        lemma_vertex_found(elements, k, upto - 1);
    }
}

/// The names of the required properties.
fn required_names() -> (names: Vec<String>)
    ensures
        name_views(names@) == required_properties(),
{
    let mut names: Vec<String> = Vec::new();
    names.push("x".to_owned());
    names.push("y".to_owned());
    names.push("z".to_owned());
    names.push("scale_0".to_owned());
    names.push("scale_1".to_owned());
    names.push("scale_2".to_owned());
    names.push("opacity".to_owned());
    names.push("rot_0".to_owned());
    names.push("rot_1".to_owned());
    names.push("rot_2".to_owned());
    names.push("rot_3".to_owned());
    assert(name_views(names@) =~= required_properties());
    names
}

/// Whether `names` holds `wanted`.
fn holds_name(names: &Vec<String>, wanted: &String) -> (found: bool)
    ensures
        found == name_views(names@).contains(wanted@),
{
    let n = names.len();
    let mut i: usize = 0;
    while i < n
        invariant
            i <= n,
            n == names.len(),
            forall|j: int| 0 <= j < i ==> (#[trigger] name_views(names@)[j]) != wanted@,
        decreases n - i,
    {
        if names[i] == *wanted {
            assert(name_views(names@)[i as int] == wanted@);
            return true;
        }
        i += 1;
    }
    false
}

/// Whether `properties` names every property that a splat must have.
pub fn has_splat_properties(properties: &Vec<String>) -> (ok: bool)
    ensures
        ok == has_required(name_views(properties@)),
{
    let required = required_names();
    let n = required.len();
    let mut k: usize = 0;
    while k < n
        invariant
            k <= n,
            n == required.len(),
            name_views(required@) == required_properties(),
            has_required_upto(name_views(properties@), k as int),
        decreases n - k,
    {
        if !holds_name(properties, &required[k]) {
            assert(name_views(required@)[k as int] == required@[k as int]@);
            assert(!name_views(properties@).contains(required_properties()[k as int]));
            return false;
        }
        assert(name_views(required@)[k as int] == required@[k as int]@);
        k += 1;
    }
    true
}

/// Number of splats that the PLY file `ply_data` declares: the count of its
/// `vertex` element.
///
/// Only the header is read and tested: what follows the line that starts
/// with `end_header` has no part in the result.
pub fn ply_count(ply_data: &[u8]) -> (r: Result<usize, PlyError>)
    ensures
        !number_lines_fit(header_part(ply_data@)) ==> r == Err::<usize, PlyError>(
            PlyError::NumberTooLong,
        ),
        number_lines_fit(header_part(ply_data@)) ==> r == count_from_header(
            ply_header_elements(header_part(ply_data@)),
        ),
{
    let header = header_of(ply_data);
    if !check_number_lines(header) {
        return Err(PlyError::NumberTooLong);
    }
    match read_header_elements(header) {
        None => Err(PlyError::BadHeader),
        Some(elements) => match vertex_count(&elements) {
            Some(n) => Ok(n),
            None => Err(PlyError::NoVertexElement),
        },
    }
}

/// Number of splats that loading the PLY file `ply_data` will give: the count
/// of its `vertex` element, provided that the element has the properties of a
/// splat and at least one instance.
///
/// Only the header is read and tested: what follows the line that starts
/// with `end_header` has no part in the result.
pub fn splat_header(ply_data: &[u8]) -> (r: Result<usize, PlyError>)
    ensures
        !number_lines_fit(header_part(ply_data@)) ==> r == Err::<usize, PlyError>(
            PlyError::NumberTooLong,
        ),
        number_lines_fit(header_part(ply_data@)) ==> r == splats_from_header(
            ply_header_elements(header_part(ply_data@)),
        ),
{
    let header = header_of(ply_data);
    if !check_number_lines(header) {
        return Err(PlyError::NumberTooLong);
    }
    let elements = match read_header_elements(header) {
        None => {
            return Err(PlyError::BadHeader);
        },
        Some(elements) => elements,
    };
    let i = match find_vertex(&elements) {
        None => {
            return Err(PlyError::NoVertexElement);
        },
        Some(i) => i,
    };
    if !has_splat_properties(&elements[i].properties) {
        return Err(PlyError::MissingProperties);
    }
    if elements[i].count == 0 {
        return Err(PlyError::NoSplats);
    }
    Ok(elements[i].count)
}

} // verus!
