//! Reading the head of a problem file: where it comes from, how many jobs and
//! resources it has, and the information on its projects.

use crate::problem::PspLibProblem;
use crate::problem::PspLibProblemResources;
use crate::problem::PspLibProjectInformation;
use crate::problem::PspLibResourceAvailability;
use crate::psp_lib_parser::lexis::newline_end;
use crate::psp_lib_parser::lexis::newline_end_from;
use crate::psp_lib_parser::lexis::number_at;
use crate::psp_lib_parser::lexis::number_end;
use crate::psp_lib_parser::lexis::has_word;
use crate::psp_lib_parser::lexis::read_number;
use crate::psp_lib_parser::lexis::skip_byte;
use crate::psp_lib_parser::lexis::skip_byte_from;
use crate::psp_lib_parser::lexis::skip_name;
use crate::psp_lib_parser::lexis::skip_name_from;
use crate::psp_lib_parser::lexis::skip_spaces;
use crate::psp_lib_parser::lexis::skip_spaces_from;
use crate::psp_lib_parser::lexis::unit_end;
use crate::psp_lib_parser::lexis::unit_end_from;
use crate::psp_lib_parser::lexis::word_at;
use vstd::prelude::*;
use vstd::string::StringSliceAdditionalSpecFns;
use vstd::utf8::decode_utf8;
use vstd::utf8::is_char_boundary;

pub mod lexis;

verus! {

/// Why a text is not the head of a problem file.
#[derive(Debug, Clone, Copy, PartialEq, Eq)]
pub enum PspLibParseError {
    /// What the file format asks for does not stand at this place of the text,
    /// counted in bytes; or the number that stands there is too large.
    ParseError(usize),
    /// The information on a project is incomplete.
    ProjectInfoIncomplete,
}

/// The place behind a separator: white space, asterisks, white space.
pub open spec fn separator_end(s: Seq<u8>, i: int) -> int {
    skip_spaces(s, skip_byte(s, skip_spaces(s, i), 42))
}

/// The place behind a label and its colon, with white space before, between
/// and behind; or the place at which one of the two is missing.
pub open spec fn label_end(s: Seq<u8>, i: int, label: &str) -> Result<int, int> {
    let at = skip_spaces(s, i);
    if !has_word(s, at, label) {
        Err(at)
    } else {
        let colon = skip_spaces(s, at + label.spec_bytes().len());
        if colon < s.len() && s[colon] == 58 {
            Ok(skip_spaces(s, colon + 1))
        } else {
            Err(colon)
        }
    }
}

/// The number behind a label and its colon, with the place behind it.
pub open spec fn field_at(s: Seq<u8>, i: int, label: &str) -> Result<(int, int), int> {
    match label_end(s, i, label) {
        Err(at) => Err(at),
        Ok(at) => match number_at(s, at, usize::MAX as int) {
            None => Err(at),
            Some(found) => Ok(found),
        },
    }
}

/// The number behind a label and its colon, with the place behind the unit
/// that may follow the number.
pub open spec fn descriptor_at(s: Seq<u8>, i: int, label: &str) -> Result<(int, int), int> {
    match field_at(s, i, label) {
        Err(at) => Err(at),
        Ok((value, end)) => Ok((value, unit_end(s, end))),
    }
}

/// The bytes from `from` up to `to` can be cut out of the text as a string.
pub open spec fn cut_ok(s: Seq<u8>, from: int, to: int) -> bool {
    is_char_boundary(s, from) && is_char_boundary(s.subrange(from, s.len() as int), to - from)
}

/// The first lines of a problem file, from place `i` on: a separator, the
/// name of the file with the base data and the initial value of the random
/// generator, each behind its label. The result holds the name, the value and
/// the place behind the value.
pub open spec fn file_metadata(s: Seq<u8>, i: int) -> Result<((Seq<char>, int), int), int> {
    match label_end(s, separator_end(s, i), "file with basedata") {
        Err(at) => Err(at),
        Ok(from) => {
            let to = skip_name(s, from);
            if !cut_ok(s, from, to) {
                Err(from)
            } else {
                match field_at(s, to, "initial value random generator") {
                    Err(at) => Err(at),
                    Ok((value, end)) => Ok(((decode_utf8(s.subrange(from, to)), value), end)),
                }
            }
        },
    }
}

/// The three numbers on resources: behind the word RESOURCES the numbers of
/// renewable, nonrenewable and doubly constrained resources.
pub open spec fn resources_at(s: Seq<u8>, i: int) -> Result<(Seq<int>, int), int> {
    let at = skip_spaces(s, i);
    if !has_word(s, at, "RESOURCES") {
        Err(at)
    } else {
        match descriptor_at(s, at + "RESOURCES".spec_bytes().len(), "- renewable") {
            Err(at) => Err(at),
            Ok((renewable, a)) => match descriptor_at(s, a, "- nonrenewable") {
                Err(at) => Err(at),
                Ok((nonrenewable, b)) => match descriptor_at(s, b, "- doubly constrained") {
                    Err(at) => Err(at),
                    Ok((doubly, c)) => Ok((seq![renewable, nonrenewable, doubly], c)),
                },
            },
        }
    }
}

/// The numbers of a problem file, from place `i` on: a separator, then the
/// numbers of projects and of jobs and the horizon, and the three numbers on
/// resources.
pub open spec fn metadata(s: Seq<u8>, i: int) -> Result<(Seq<int>, int), int> {
    match descriptor_at(s, separator_end(s, i), "projects") {
        Err(at) => Err(at),
        Ok((projects, a)) => match descriptor_at(s, a, "jobs (incl. supersource/sink )") {
            Err(at) => Err(at),
            Ok((jobs, b)) => match descriptor_at(s, b, "horizon") {
                Err(at) => Err(at),
                Ok((horizon, c)) => match resources_at(s, c) {
                    Err(at) => Err(at),
                    Ok((resources, d)) => Ok((seq![projects, jobs, horizon] + resources, d)),
                },
            },
        }
    }
}

/// The numbers that stand from place `i` on, each below 256 and followed by
/// blanks; or the place of a number that is not below 256.
pub open spec fn numbers_at(s: Seq<u8>, i: int) -> Result<(Seq<int>, int), int>
    decreases s.len() - i,
{
    if number_end(s, i) < 0 {
        Ok((Seq::empty(), i))
    } else {
        match number_at(s, i, 255) {
            None => Err(i),
            Some((value, end)) => {
                let next = skip_byte(s, end, 32);
                if i < next <= s.len() {
                    match numbers_at(s, next) {
                        Err(at) => Err(at),
                        Ok((rest, last)) => Ok((seq![value] + rest, last)),
                    }
                } else {
                    Ok((seq![value], next))
                }
            },
        }
    }
}

/// A row of the project information from place `i` on: white space, six
/// numbers or more, and the end of the line. `None` where no such row stands
/// there.
pub open spec fn row_at(s: Seq<u8>, i: int) -> Result<Option<(Seq<int>, int)>, int> {
    match numbers_at(s, skip_spaces(s, i)) {
        Err(at) => Err(at),
        Ok((values, end)) => if values.len() >= 6 && newline_end(s, end) >= 0 {
            Ok(Some((values, newline_end(s, end))))
        } else {
            Ok(None)
        },
    }
}

/// The rows of the project information from place `i` on, as many as follow
/// one another.
pub open spec fn rows_at(s: Seq<u8>, i: int) -> Result<(Seq<Seq<int>>, int), int>
    decreases s.len() - i,
{
    match row_at(s, i) {
        Err(at) => Err(at),
        Ok(None) => Ok((Seq::empty(), i)),
        Ok(Some((values, next))) => if i < next <= s.len() {
            match rows_at(s, next) {
                Err(at) => Err(at),
                Ok((rest, last)) => Ok((seq![values] + rest, last)),
            }
        } else {
            Ok((seq![values], next))
        },
    }
}

/// The project information of a problem file, from place `i` on: a
/// separator, the title, the line that names the columns, and the rows.
pub open spec fn project_info(s: Seq<u8>, i: int) -> Result<(Seq<Seq<int>>, int), int> {
    let title = separator_end(s, i);
    if !has_word(s, title, "PROJECT INFORMATION:") {
        Err(title)
    } else {
        let columns = skip_spaces(s, title + "PROJECT INFORMATION:".spec_bytes().len());
        if !has_word(s, columns, "pronr.  #jobs rel.date duedate tardcost  MPM-Time") {
            Err(columns)
        } else {
            rows_at(
                s,
                skip_spaces(
                    s,
                    columns
                        + "pronr.  #jobs rel.date duedate tardcost  MPM-Time".spec_bytes().len(),
                ),
            )
        }
    }
}

/// The rows as numbers.
pub open spec fn rows_view(rows: Seq<Vec<u8>>) -> Seq<Seq<int>> {
    Seq::new(rows.len(), |r: int| Seq::new(rows[r]@.len(), |k: int| rows[r][k] as int))
}

/// The numbers as they are.
pub open spec fn numbers_view(numbers: Seq<usize>) -> Seq<int> {
    Seq::new(numbers.len(), |k: int| numbers[k] as int)
}

/// Behind the text there is no white space, no separator and no word.
proof fn lemma_behind_the_text(s: Seq<u8>, i: int, word: &str)
    requires
        i > s.len(),
    ensures
        skip_spaces(s, i) == i,
        separator_end(s, i) == i,
        !has_word(s, i, word),
        label_end(s, i, word) == Err::<int, int>(i),
{
}

/// Reads a label and its colon.
fn read_label(text: &[u8], start: usize, label: &str) -> (result: Result<usize, usize>)
    requires
        start <= text.len(),
    ensures
        match result {
            Ok(end) => label_end(text@, start as int, label) == Ok::<int, int>(end as int) && end
                <= text.len(),
            Err(at) => label_end(text@, start as int, label) == Err::<int, int>(at as int),
        },
{
    let at = skip_spaces_from(text, start);
    if !word_at(text, at, label) {
        return Err(at);
    }
    let colon = skip_spaces_from(text, at + label.as_bytes().len());
    if colon < text.len() && text[colon] == 58 {
        Ok(skip_spaces_from(text, colon + 1))
    } else {
        Err(colon)
    }
}

/// Reads the number behind a label and its colon.
fn read_field(text: &[u8], start: usize, label: &str) -> (result: Result<(usize, usize), usize>)
    requires
        start <= text.len(),
    ensures
        match result {
            Ok((value, end)) => field_at(text@, start as int, label) == Ok::<(int, int), int>(
                (value as int, end as int),
            ) && end <= text.len(),
            Err(at) => field_at(text@, start as int, label) == Err::<(int, int), int>(at as int),
        },
{
    let at = match read_label(text, start, label) {
        Ok(at) => at,
        Err(at) => {
            return Err(at);
        },
    };
    match read_number(text, at, usize::MAX) {
        Some(found) => Ok(found),
        None => Err(at),
    }
}

/// Reads the number behind a label and its colon, and the unit that may
/// follow it.
fn read_descriptor(text: &[u8], start: usize, label: &str) -> (result: Result<
    (usize, usize),
    usize,
>)
    requires
        start <= text.len(),
    ensures
        match result {
            Ok((value, end)) => descriptor_at(text@, start as int, label) == Ok::<(int, int), int>(
                (value as int, end as int),
            ) && end <= text.len(),
            Err(at) => descriptor_at(text@, start as int, label) == Err::<(int, int), int>(
                at as int,
            ),
        },
{
    match read_field(text, start, label) {
        Ok((value, end)) => Ok((value, unit_end_from(text, end))),
        Err(at) => Err(at),
    }
}

/// Reads the place behind a separator.
fn read_separator(text: &[u8], start: usize) -> (end: usize)
    requires
        start <= text.len(),
    ensures
        end == separator_end(text@, start as int),
        end <= text.len(),
{
    let stars = skip_spaces_from(text, start);
    let behind = skip_byte_from(text, stars, 42);
    skip_spaces_from(text, behind)
}

/// Reads the name of the file with the base data and the initial value of
/// the random generator from the text, from place `start` on. Beside them it
/// returns the place behind what it has read.
pub fn file_metadata_parser(content: &str, start: usize) -> (result: Result<
    ((String, usize), usize),
    PspLibParseError,
>)
    ensures
        match result {
            Ok(((name, value), end)) => file_metadata(content.spec_bytes(), start as int) == Ok::<
                ((Seq<char>, int), int),
                int,
            >(((name@, value as int), end as int)) && end <= content.spec_bytes().len(),
            Err(PspLibParseError::ParseError(at)) => file_metadata(
                content.spec_bytes(),
                start as int,
            ) == Err::<((Seq<char>, int), int), int>(at as int),
            Err(PspLibParseError::ProjectInfoIncomplete) => false,
        },
{
    let text = content.as_bytes();
    let ghost s = content.spec_bytes();
    if start > text.len() {
        proof {
            lemma_behind_the_text(s, start as int, "file with basedata");
        }
        return Err(PspLibParseError::ParseError(start));
    }
    let from = match read_label(text, read_separator(text, start), "file with basedata") {
        Ok(from) => from,
        Err(at) => {
            return Err(PspLibParseError::ParseError(at));
        },
    };
    let to = skip_name_from(text, from);
    if !content.is_char_boundary(from) {
        return Err(PspLibParseError::ParseError(from));
    }
    let (_, tail) = content.split_at(from);
    if !tail.is_char_boundary(to - from) {
        return Err(PspLibParseError::ParseError(from));
    }
    let (cut, _) = tail.split_at(to - from);
    let name = cut.to_owned();
    proof {
        assert(cut.spec_bytes() =~= s.subrange(from as int, to as int));
        vstd::utf8::encode_utf8_decode_utf8(cut@);
    }
    match read_field(text, to, "initial value random generator") {
        Ok((value, end)) => Ok(((name, value), end)),
        Err(at) => Err(PspLibParseError::ParseError(at)),
    }
}

/// Reads the three numbers on resources.
fn read_resources(text: &[u8], start: usize) -> (result: Result<(Vec<usize>, usize), usize>)
    requires
        start <= text.len(),
    ensures
        match result {
            Ok((numbers, end)) => resources_at(text@, start as int) == Ok::<(Seq<int>, int), int>(
                (numbers_view(numbers@), end as int),
            ) && end <= text.len() && numbers.len() == 3,
            Err(at) => resources_at(text@, start as int) == Err::<(Seq<int>, int), int>(at as int),
        },
{
    let at = skip_spaces_from(text, start);
    if !word_at(text, at, "RESOURCES") {
        return Err(at);
    }
    let (renewable, a) = match read_descriptor(
        text,
        at + "RESOURCES".as_bytes().len(),
        "- renewable",
    ) {
        Ok(found) => found,
        Err(at) => {
            return Err(at);
        },
    };
    let (nonrenewable, b) = match read_descriptor(text, a, "- nonrenewable") {
        Ok(found) => found,
        Err(at) => {
            return Err(at);
        },
    };
    let (doubly, c) = match read_descriptor(text, b, "- doubly constrained") {
        Ok(found) => found,
        Err(at) => {
            return Err(at);
        },
    };
    let numbers: Vec<usize> = vec![renewable, nonrenewable, doubly];
    assert(numbers_view(numbers@) =~= seq![renewable as int, nonrenewable as int, doubly as int]);
    Ok((numbers, c))
}

/// Reads the numbers of projects and jobs, the horizon and the numbers of
/// renewable, nonrenewable and doubly constrained resources, in this order,
/// from the text, from place `start` on. Beside them it returns the place
/// behind what it has read.
pub fn metadata_parser(content: &str, start: usize) -> (result: Result<
    (Vec<usize>, usize),
    PspLibParseError,
>)
    ensures
        match result {
            Ok((numbers, end)) => metadata(content.spec_bytes(), start as int) == Ok::<
                (Seq<int>, int),
                int,
            >((numbers_view(numbers@), end as int)) && end <= content.spec_bytes().len()
                && numbers.len() == 6,
            Err(PspLibParseError::ParseError(at)) => metadata(content.spec_bytes(), start as int)
                == Err::<(Seq<int>, int), int>(at as int),
            Err(PspLibParseError::ProjectInfoIncomplete) => false,
        },
{
    let text = content.as_bytes();
    if start > text.len() {
        proof {
            lemma_behind_the_text(content.spec_bytes(), start as int, "projects");
        }
        return Err(PspLibParseError::ParseError(start));
    }
    let (projects, a) = match read_descriptor(text, read_separator(text, start), "projects") {
        Ok(found) => found,
        Err(at) => {
            return Err(PspLibParseError::ParseError(at));
        },
    };
    let (jobs, b) = match read_descriptor(text, a, "jobs (incl. supersource/sink )") {
        Ok(found) => found,
        Err(at) => {
            return Err(PspLibParseError::ParseError(at));
        },
    };
    let (horizon, c) = match read_descriptor(text, b, "horizon") {
        Ok(found) => found,
        Err(at) => {
            return Err(PspLibParseError::ParseError(at));
        },
    };
    let (resources, d) = match read_resources(text, c) {
        Ok(found) => found,
        Err(at) => {
            return Err(PspLibParseError::ParseError(at));
        },
    };
    let numbers: Vec<usize> = vec![
        projects,
        jobs,
        horizon,
        resources[0],
        resources[1],
        resources[2],
    ];
    assert(numbers_view(numbers@) =~= seq![projects as int, jobs as int, horizon as int]
        + numbers_view(resources@));
    Ok((numbers, d))
}

/// Reads the numbers of a row.
fn read_numbers(text: &[u8], start: usize) -> (result: Result<(Vec<u8>, usize), usize>)
    requires
        start <= text.len(),
    ensures
        match result {
            Ok((numbers, end)) => numbers_at(text@, start as int) == Ok::<(Seq<int>, int), int>(
                (Seq::new(numbers@.len(), |k: int| numbers[k] as int), end as int),
            ) && start <= end <= text.len(),
            Err(at) => numbers_at(text@, start as int) == Err::<(Seq<int>, int), int>(at as int),
        },
{
    let ghost s = text@;
    let mut numbers: Vec<u8> = Vec::new();
    let mut at = start;
    loop
        invariant
            s == text@,
            start <= at <= text.len(),
            match numbers_at(s, at as int) {
                Ok((rest, last)) => numbers_at(s, start as int) == Ok::<(Seq<int>, int), int>(
                    (Seq::new(numbers@.len(), |k: int| numbers[k] as int) + rest, last),
                ),
                Err(place) => numbers_at(s, start as int) == Err::<(Seq<int>, int), int>(place),
            },
        ensures
            start <= at <= text.len(),
            numbers_at(s, start as int) == Ok::<(Seq<int>, int), int>(
                (Seq::new(numbers@.len(), |k: int| numbers[k] as int), at as int),
            ),
        decreases text.len() - at,
    {
        let ghost before = Seq::new(numbers@.len(), |k: int| numbers[k] as int);
        if at >= text.len() || !(48 <= text[at] && text[at] <= 57) {
            assert(before + Seq::<int>::empty() =~= before);
            break ;
        }
        proof {
            crate::psp_lib_parser::lexis::lemma_number_end(s, at as int);
        }
        let (value, end) = match read_number(text, at, 255) {
            Some(found) => found,
            None => {
                assert(numbers_at(s, at as int) == Err::<(Seq<int>, int), int>(at as int));
                return Err(at);
            },
        };
        let next = skip_byte_from(text, end, 32);
        numbers.push(value as u8);
        proof {
            let after = Seq::new(numbers@.len(), |k: int| numbers[k] as int);
            assert(after =~= before + seq![value as int]);
            match numbers_at(s, next as int) {
                Ok((rest, last)) => {
                    assert(before + (seq![value as int] + rest) =~= after + rest);
                },
                Err(place) => {},
            }
        }
        at = next;
    }
    Ok((numbers, at))
}

/// Reads the rows of the project information from the text, from place
/// `start` on: behind a separator, the title and the line that names the
/// columns, each row holds six numbers or more. Beside the rows it returns
/// the place behind the last of them.
pub fn project_info_parser(content: &str, start: usize) -> (result: Result<
    (Vec<Vec<u8>>, usize),
    PspLibParseError,
>)
    ensures
        match result {
            Ok((rows, end)) => project_info(content.spec_bytes(), start as int) == Ok::<
                (Seq<Seq<int>>, int),
                int,
            >((rows_view(rows@), end as int)) && end <= content.spec_bytes().len() && forall|
                r: int,
            | 0 <= r < rows.len() ==> (#[trigger] rows[r]).len() >= 6,
            Err(PspLibParseError::ParseError(at)) => project_info(
                content.spec_bytes(),
                start as int,
            ) == Err::<(Seq<Seq<int>>, int), int>(at as int),
            Err(PspLibParseError::ProjectInfoIncomplete) => false,
        },
{
    let text = content.as_bytes();
    let ghost s = content.spec_bytes();
    if start > text.len() {
        proof {
            lemma_behind_the_text(s, start as int, "PROJECT INFORMATION:");
        }
        return Err(PspLibParseError::ParseError(start));
    }
    let title = read_separator(text, start);
    if !word_at(text, title, "PROJECT INFORMATION:") {
        return Err(PspLibParseError::ParseError(title));
    }
    let columns = skip_spaces_from(text, title + "PROJECT INFORMATION:".as_bytes().len());
    if !word_at(text, columns, "pronr.  #jobs rel.date duedate tardcost  MPM-Time") {
        return Err(PspLibParseError::ParseError(columns));
    }
    let first = skip_spaces_from(
        text,
        columns + "pronr.  #jobs rel.date duedate tardcost  MPM-Time".as_bytes().len(),
    );
    let mut rows: Vec<Vec<u8>> = Vec::new();
    let mut at = first;
    loop
        invariant
            s == text@,
            s == content.spec_bytes(),
            project_info(s, start as int) == rows_at(s, first as int),
            first <= at <= text.len(),
            forall|r: int| 0 <= r < rows.len() ==> (#[trigger] rows[r]).len() >= 6,
            match rows_at(s, at as int) {
                Ok((rest, last)) => rows_at(s, first as int) == Ok::<(Seq<Seq<int>>, int), int>(
                    (rows_view(rows@) + rest, last),
                ),
                Err(place) => rows_at(s, first as int) == Err::<(Seq<Seq<int>>, int), int>(place),
            },
        ensures
            first <= at <= text.len(),
            forall|r: int| 0 <= r < rows.len() ==> (#[trigger] rows[r]).len() >= 6,
            rows_at(s, first as int) == Ok::<(Seq<Seq<int>>, int), int>(
                (rows_view(rows@), at as int),
            ),
        decreases text.len() - at,
    {
        let ghost before = rows_view(rows@);
        let (numbers, end) = match read_numbers(text, skip_spaces_from(text, at)) {
            Ok(found) => found,
            Err(place) => {
                assert(row_at(s, at as int) == Err::<Option<(Seq<int>, int)>, int>(place as int));
                assert(rows_at(s, at as int) == Err::<(Seq<Seq<int>>, int), int>(place as int));
                return Err(PspLibParseError::ParseError(place));
            },
        };
        let next = if numbers.len() >= 6 {
            newline_end_from(text, end)
        } else {
            None
        };
        match next {
            Some(next) => {
                let ghost values = Seq::new(numbers@.len(), |k: int| numbers[k] as int);
                rows.push(numbers);
                proof {
                    assert(rows_view(rows@) =~= before + seq![values]);
                    match rows_at(s, next as int) {
                        Ok((rest, last)) => {
                            assert(before + (seq![values] + rest) =~= rows_view(rows@) + rest);
                        },
                        Err(place) => {},
                    }
                }
                at = next;
            },
            None => {
                assert(before + Seq::<Seq<int>>::empty() =~= before);
                break ;
            },
        }
    }
    Ok((rows, at))
}

/// What a problem holds once its head has been read: the name and the
/// numbers of the head, the rows of the project information, and nothing on
/// precedence, durations and capacities yet.
pub open spec fn holds_head(
    problem: PspLibProblem,
    name: Seq<char>,
    initial_rng: int,
    numbers: Seq<int>,
    rows: Seq<Seq<int>>,
) -> bool {
    &&& problem.file_with_basedata@ == name
    &&& problem.initial_rng == initial_rng
    &&& problem.projects == numbers[0]
    &&& problem.jobs == numbers[1]
    &&& problem.horizon == numbers[2]
    &&& problem.resources.renewable == numbers[3]
    &&& problem.resources.nonrenewable == numbers[4]
    &&& problem.resources.doubly_constrained == numbers[5]
    &&& problem.project_info.len() == rows.len()
    &&& forall|r: int|
        0 <= r < rows.len() ==> {
            let info = #[trigger] problem.project_info[r];
            &&& info.number == rows[r][0]
            &&& info.jobs == rows[r][1]
            &&& info.relative_date == rows[r][2]
            &&& info.due_date == rows[r][3]
            &&& info.tard_cost == rows[r][4]
            &&& info.mpm_time == rows[r][5]
        }
    &&& problem.precedence_relations.len() == 0
    &&& problem.request_durations.len() == 0
    &&& problem.resource_availabilities.r1 == 0
    &&& problem.resource_availabilities.r2 == 0
    &&& problem.resource_availabilities.r3 == 0
    &&& problem.resource_availabilities.r4 == 0
}

/// The head of a problem file as a whole: the first lines, the numbers and
/// the project information, one behind the other from the start of the text.
pub open spec fn head(s: Seq<u8>) -> Result<(Seq<char>, int, Seq<int>, Seq<Seq<int>>), int> {
    match file_metadata(s, 0) {
        Err(at) => Err(at),
        Ok(((name, initial_rng), a)) => match metadata(s, a) {
            Err(at) => Err(at),
            Ok((numbers, b)) => match project_info(s, b) {
                Err(at) => Err(at),
                Ok((rows, c)) => Ok((name, initial_rng, numbers, rows)),
            },
        },
    }
}

/// Reads the head of a problem file. What follows the project information is
/// not read: the problem has no precedence rows, no durations and no
/// capacities.
pub fn parse_psp_lib(content: &str) -> (result: Result<PspLibProblem, PspLibParseError>)
    ensures
        match result {
            Ok(problem) => match head(content.spec_bytes()) {
                Ok((name, initial_rng, numbers, rows)) => holds_head(
                    problem,
                    name,
                    initial_rng,
                    numbers,
                    rows,
                ),
                Err(at) => false,
            },
            Err(PspLibParseError::ParseError(at)) => head(content.spec_bytes()) == Err::<
                (Seq<char>, int, Seq<int>, Seq<Seq<int>>),
                int,
            >(at as int),
            Err(PspLibParseError::ProjectInfoIncomplete) => false,
        },
{
    let ((file_with_basedata, initial_rng), a) = match file_metadata_parser(content, 0) {
        Ok(found) => found,
        Err(e) => {
            return Err(e);
        },
    };
    let (numbers, b) = match metadata_parser(content, a) {
        Ok(found) => found,
        Err(e) => {
            return Err(e);
        },
    };
    let (rows, c) = match project_info_parser(content, b) {
        Ok(found) => found,
        Err(e) => {
            return Err(e);
        },
    };
    let mut project_info: Vec<PspLibProjectInformation> = Vec::new();
    let mut r: usize = 0;
    while r < rows.len()
        invariant
            r <= rows.len(),
            project_info.len() == r,
            forall|q: int| 0 <= q < rows.len() ==> (#[trigger] rows[q]).len() >= 6,
            forall|q: int|
                0 <= q < r ==> {
                    let info = #[trigger] project_info[q];
                    &&& info.number == rows[q][0]
                    &&& info.jobs == rows[q][1]
                    &&& info.relative_date == rows[q][2]
                    &&& info.due_date == rows[q][3]
                    &&& info.tard_cost == rows[q][4]
                    &&& info.mpm_time == rows[q][5]
                },
        decreases rows.len() - r,
    {
        let row = &rows[r];
        assert(rows[r as int].len() >= 6);
        project_info.push(
            PspLibProjectInformation {
                number: row[0],
                jobs: row[1],
                relative_date: row[2],
                due_date: row[3],
                tard_cost: row[4],
                mpm_time: row[5],
            },
        );
        r += 1;
    }
    let problem = PspLibProblem {
        file_with_basedata,
        initial_rng,
        projects: numbers[0],
        jobs: numbers[1],
        horizon: numbers[2],
        resources: PspLibProblemResources {
            renewable: numbers[3],
            nonrenewable: numbers[4],
            doubly_constrained: numbers[5],
        },
        project_info,
        precedence_relations: Vec::new(),
        request_durations: Vec::new(),
        resource_availabilities: PspLibResourceAvailability { r1: 0, r2: 0, r3: 0, r4: 0 },
    };
    proof {
        let view = rows_view(rows@);
        assert forall|q: int| 0 <= q < view.len() implies {
            let info = #[trigger] problem.project_info[q];
            &&& info.number == view[q][0]
            &&& info.jobs == view[q][1]
            &&& info.relative_date == view[q][2]
            &&& info.due_date == view[q][3]
            &&& info.tard_cost == view[q][4]
            &&& info.mpm_time == view[q][5]
        } by {
            assert(rows[q].len() >= 6);
        }
    }
    Ok(problem)
}

} // verus!
