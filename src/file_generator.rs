use crate::text_code_fsa::{fragments, Fragment, Part};
use vstd::prelude::*;
use vstd::string::StringExecFns;

verus! {

pub open spec fn hex_digit(d: int) -> char {
    seq!['0', '1', '2', '3', '4', '5', '6', '7', '8', '9', 'a', 'b', 'c', 'd', 'e', 'f'][d]
}

/// The shortest lower-case hexadecimal numeral of `n`.
pub open spec fn hex_of(n: nat) -> Seq<char>
    decreases n,
{
    if n < 16 {
        seq![hex_digit(n as int)]
    } else {
        hex_of(n / 16).push(hex_digit((n % 16) as int))
    }
}

/// One character escaped as Rust's `char::escape_default` documents it.
pub open spec fn escape_default_char(c: char) -> Seq<char> {
    if c == '\t' {
        seq!['\\', 't']
    } else if c == '\r' {
        seq!['\\', 'r']
    } else if c == '\n' {
        seq!['\\', 'n']
    } else if c == '\'' || c == '"' || c == '\\' {
        seq!['\\', c]
    } else if 0x20 <= (c as u32) <= 0x7e {
        seq![c]
    } else {
        seq!['\\', 'u', '{'] + hex_of((c as u32) as nat) + seq!['}']
    }
}

/// Text escaped character by character, so that it can stand in a Rust string literal.
pub open spec fn escape_default_text(s: Seq<char>) -> Seq<char>
    decreases s.len(),
{
    if s.len() == 0 {
        Seq::empty()
    } else {
        escape_default_text(s.drop_last()) + escape_default_char(s.last())
    }
}

/// Relies on `str::escape_default` (collected with `to_string`): every character is
/// escaped with `char::escape_default`, in order.
#[verifier::external_body]
fn escape_default(s: &str) -> (r: String)
    ensures
        r@ == escape_default_text(s@),
{
    s.escape_default().to_string()
}

/// The parameter declarations, separated by `", "`.
pub open spec fn join_args(args: Seq<Seq<char>>) -> Seq<char>
    decreases args.len(),
{
    if args.len() == 0 {
        Seq::empty()
    } else if args.len() == 1 {
        args[0]
    } else {
        join_args(args.drop_last()) + ", "@ + args.last()
    }
}

pub open spec fn header_line(fn_name: Seq<char>, args: Seq<Seq<char>>) -> Seq<char> {
    "fn "@ + fn_name + "("@ + join_args(args) + ") -> Result<String, Box<dyn std::error::Error>> {"@
}

/// The statement that stands for one fragment in the generated body.
pub open spec fn fragment_line(f: Fragment) -> Seq<char> {
    match f {
        Fragment::Code(c) => c,
        Fragment::EchoCode(c) => "\twrite!(output_buffer, \"{}\", { "@ + c + " })?;"@,
        Fragment::Text(t) => "write!(output_buffer, \"{}\", \""@ + escape_default_text(t)
            + "\")?;"@,
    }
}

/// The source lines of a function named `fn_name`, taking `args`, that renders `fs`.
pub open spec fn generated_lines(fn_name: Seq<char>, args: Seq<Seq<char>>, fs: Seq<Fragment>) -> Seq<
    Seq<char>,
> {
    seq![header_line(fn_name, args), "use std::fmt::Write;"@, "let mut output_buffer = String::new();"@]
        + fs.map_values(|f: Fragment| fragment_line(f)) + seq!["Ok(output_buffer)"@, "}"@]
}

pub open spec fn views_of(v: Seq<String>) -> Seq<Seq<char>> {
    v.map_values(|s: String| s@)
}


fn join_arg_list(args: &Vec<String>) -> (r: String)
    ensures
        r@ == join_args(views_of(args@)),
{
    let ghost all = views_of(args@);
    let mut joined = String::new();
    let mut k: usize = 0;
    while k < args.len()
        invariant
            k <= args@.len(),
            all == views_of(args@),
            joined@ == join_args(all.take(k as int)),
        decreases args@.len() - k,
    {
        assert(all.take(k + 1).drop_last() =~= all.take(k as int));
        if k > 0 {
            joined.append(", ");
        } else {
            assert(joined@ =~= Seq::<char>::empty());
        }
        joined.append(args[k].as_str());
        k += 1;
    }
    assert(all.take(k as int) =~= all);
    joined
}

fn fragment_line_of(part: &Part) -> (r: String)
    ensures
        r@ == fragment_line(part@),
{
    match part {
        Part::Code(code) => code.clone(),
        Part::EchoCode(code) => {
            let mut line = String::from_str("\twrite!(output_buffer, \"{}\", { ");
            line.append(code.as_str());
            line.append(" })?;");
            line
        },
        Part::Text(text) => {
            let mut line = String::from_str("write!(output_buffer, \"{}\", \"");
            line.append(escape_default(text.as_str()).as_str());
            line.append("\")?;");
            line
        },
    }
}

/// The source lines of a function named `fn_name`, with the parameter declarations
/// `args`, whose body appends each fragment of `data` to an output buffer in order and
/// returns the buffer.
pub fn generate_file(fn_name: &str, args: Vec<String>, data: &Vec<Part>) -> (r: Vec<String>)
    ensures
        views_of(r@) == generated_lines(fn_name@, views_of(args@), fragments(data@)),
{
    let joined_args = join_arg_list(&args);
    let mut code_lines: Vec<String> = Vec::new();
    let mut header = String::from_str("fn ");
    header.append(fn_name);
    header.append("(");
    header.append(joined_args.as_str());
    header.append(") -> Result<String, Box<dyn std::error::Error>> {");
    code_lines.push(header);
    code_lines.push(String::from_str("use std::fmt::Write;"));
    code_lines.push(String::from_str("let mut output_buffer = String::new();"));
    let ghost prefix = views_of(code_lines@);
    assert(prefix =~= seq![
        header_line(fn_name@, views_of(args@)),
        "use std::fmt::Write;"@,
        "let mut output_buffer = String::new();"@,
    ]);
    let ghost fs = fragments(data@);
    let mut k: usize = 0;
    while k < data.len()
        invariant
            k <= data@.len(),
            fs == fragments(data@),
            views_of(code_lines@) == prefix + fs.take(k as int).map_values(
                |f: Fragment| fragment_line(f),
            ),
        decreases data@.len() - k,
    {
        let ghost before = code_lines@;
        let line = fragment_line_of(&data[k]);
        code_lines.push(line);
        assert(views_of(code_lines@) =~= views_of(before).push(fragment_line(fs[k as int])));
        assert(fs.take(k + 1) =~= fs.take(k as int).push(fs[k as int]));
        assert(views_of(code_lines@) =~= prefix + fs.take(k + 1).map_values(
            |f: Fragment| fragment_line(f),
        ));
        k += 1;
    }
    assert(fs.take(k as int) =~= fs);
    let ghost body = views_of(code_lines@);
    code_lines.push(String::from_str("Ok(output_buffer)"));
    code_lines.push(String::from_str("}"));
    assert(views_of(code_lines@) =~= body + seq!["Ok(output_buffer)"@, "}"@]);
    assert(views_of(code_lines@) =~= generated_lines(fn_name@, views_of(args@), fs));
    code_lines
}


/// Generation is deterministic: two outputs for the same function name, parameters and
/// fragments are the same lines, in the same order.
pub proof fn lemma_generation_is_deterministic(
    fn_name: Seq<char>,
    args: Seq<Seq<char>>,
    fs: Seq<Fragment>,
    first: Seq<Seq<char>>,
    second: Seq<Seq<char>>,
)
    requires
        first == generated_lines(fn_name, args, fs),
        second == generated_lines(fn_name, args, fs),
    ensures
        first == second,
        first.len() == fs.len() + 5,
        forall|k: int| 0 <= k < fs.len() ==> #[trigger] first[k + 3] == fragment_line(fs[k]),
{
}

} // verus!
