//! The list of images to convert.

use vstd::prelude::*;
use vstd::string::*;

verus! {

/// What one line of the list asks for.
pub struct Job {
    /// The path of the PNG file.
    pub input: String,
    /// The name of the file to write.
    pub output: String,
}

/// Whether the line is a comment.
pub open spec fn is_comment(line: Seq<char>) -> bool {
    line.len() > 0 && line[0] == '#'
}

/// The path of the PNG file that a line names.
pub open spec fn input_path(line: Seq<char>) -> Seq<char> {
    "test/"@ + line + ".png"@
}

/// The name of the file that is written for a line: a graymap where a `g` occurs in
/// it, a pixmap otherwise.
pub open spec fn output_name(line: Seq<char>) -> Seq<char> {
    line + "."@ + (if line.contains('g') {
        "pgm"@
    } else {
        "ppm"@
    })
}

/// The job of a line of the list; none where it is a comment.
pub fn job_for_line(line: &str) -> (job: Option<Job>)
    ensures
        is_comment(line@) ==> job is None,
        !is_comment(line@) ==> {
            &&& job matches Some(j)
            &&& j.input@ == input_path(line@)
            &&& j.output@ == output_name(line@)
        },
        job is None <==> line@.len() > 0 && line@[0] == '#',
        job matches Some(j) ==> {
            &&& j.input@ == seq!['t', 'e', 's', 't', '/'] + line@ + seq!['.', 'p', 'n', 'g']
            &&& j.output@ == line@ + (if exists|k: int| 0 <= k < line@.len() && line@[k] == 'g' {
                seq!['.', 'p', 'g', 'm']
            } else {
                seq!['.', 'p', 'p', 'm']
            })
        },
{
    proof {
        law_names(line@);
    }
    let n: usize = line.unicode_len();
    if n > 0 && line.get_char(0) == '#' {
        return None;
    }
    let mut gray: bool = false;
    for i in 0..n
        invariant
            n == line@.len(),
            gray == (exists|k: int| 0 <= k < i && line@[k] == 'g'),
    {
        if line.get_char(i) == 'g' {
            gray = true;
        }
    }
    let mut input: String = "test/".to_owned();
    input.append(line);
    input.append(".png");
    let mut output: String = line.to_owned();
    output.append(".");
    output.append(
        if gray {
            "pgm"
        } else {
            "ppm"
        },
    );
    Some(Job { input, output })
}

/// Every line that starts with `#` is a comment, whatever follows, and no other line is.
pub proof fn law_comments(line: Seq<char>)
    ensures
        is_comment(seq!['#'] + line),
        line.len() == 0 ==> !is_comment(line),
        line.len() > 0 && line[0] != '#' ==> !is_comment(line),
{
    assert((seq!['#'] + line)[0] == '#');
}

/// The names that a line stands for, character by character: the input lies in the
/// directory `test` and ends in `.png`; the output ends in `.pgm` where a `g` occurs
/// anywhere in the line, and in `.ppm` elsewhere.
pub proof fn law_names(line: Seq<char>)
    ensures
        input_path(line) == seq!['t', 'e', 's', 't', '/'] + line + seq!['.', 'p', 'n', 'g'],
        (exists|k: int| 0 <= k < line.len() && line[k] == 'g') ==> output_name(line) == line + seq![
            '.',
            'p',
            'g',
            'm',
        ],
        !(exists|k: int| 0 <= k < line.len() && line[k] == 'g') ==> output_name(line) == line
            + seq!['.', 'p', 'p', 'm'],
{
    reveal_strlit("test/");
    reveal_strlit(".png");
    reveal_strlit(".");
    reveal_strlit("pgm");
    reveal_strlit("ppm");
    assert("test/"@ =~= seq!['t', 'e', 's', 't', '/']);
    assert(".png"@ =~= seq!['.', 'p', 'n', 'g']);
    assert(line + "."@ + "pgm"@ =~= line + seq!['.', 'p', 'g', 'm']);
    assert(line + "."@ + "ppm"@ =~= line + seq!['.', 'p', 'p', 'm']);
}

/// Different lines name different files.
pub proof fn law_names_differ(a: Seq<char>, b: Seq<char>)
    requires
        a != b,
    ensures
        input_path(a) != input_path(b),
        output_name(a) != output_name(b),
{
    law_names(a);
    law_names(b);
    assert(input_path(a).len() == a.len() + 9 && input_path(b).len() == b.len() + 9);
    assert(output_name(a).len() == a.len() + 4 && output_name(b).len() == b.len() + 4);
    if input_path(a) == input_path(b) {
        assert(a.len() == b.len());
        assert forall|i: int| 0 <= i < a.len() implies a[i] == b[i] by {
            assert(input_path(a)[5 + i] == a[i]);
            assert(input_path(b)[5 + i] == b[i]);
        }
        assert(a =~= b);
    }
    if output_name(a) == output_name(b) {
        assert(a.len() == b.len());
        assert forall|i: int| 0 <= i < a.len() implies a[i] == b[i] by {
            assert(output_name(a)[i] == a[i]);
            assert(output_name(b)[i] == b[i]);
        }
        assert(a =~= b);
    }
}

} // verus!
