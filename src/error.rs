//! The errors of validation and of execution.
use crate::path::{chars_of, push_char};
use vstd::prelude::*;
use vstd::string::StringExecFns;

verus! {

/// `std::io::Error`, which the file system hands back when a step fails.
#[verifier::external_type_specification]
#[verifier::external_body]
pub struct ExIoError(std::io::Error);

/// What went wrong, with every path involved, so that a person can put the
/// file system right by hand where an automatic rollback failed too.
#[derive(Debug)]
#[allow(inconsistent_fields)]
pub enum Error {
    /// The file system failed a step.
    Io(std::io::Error),
    /// One source is mapped to two different destinations.
    OneToMany { src: String, dst: (String, String) },
    /// Two different sources are mapped to one destination.
    ManyToOne { src: (String, String), dst: String },
    /// A path of the batch lies inside another path of the batch.
    NonLeafNode { node: String, descendant: String },
    /// The destination of a step exists already.
    AlreadyExists { src: String, dst: String },
    /// An attempt failed, and so did the action that was to undo it.
    AtomicActionFailed { during_attempt: Box<Error>, during_rollback: Box<Error> },
}

impl From<std::io::Error> for Error {
    fn from(value: std::io::Error) -> (r: Self)
        ensures
            r == Error::Io(value),
    {
        Error::Io(value)
    }
}

impl vstd::std_specs::convert::FromSpecImpl<std::io::Error> for Error {
    open spec fn obeys_from_spec() -> bool {
        true
    }

    open spec fn from_spec(v: std::io::Error) -> Self {
        Error::Io(v)
    }
}

/// `t` with each of its lines preceded by four spaces.
pub open spec fn indented(t: Seq<char>) -> Seq<char> {
    indent_from(t, true)
}

/// `t` with four spaces before each character that starts a line, where
/// `start` tells whether the first one does.
pub open spec fn indent_from(t: Seq<char>, start: bool) -> Seq<char>
    decreases t.len(),
{
    if t.len() == 0 {
        Seq::empty()
    } else {
        (if start {
            "    "@
        } else {
            Seq::empty()
        }) + seq![t[0]] + indent_from(t.drop_first(), t[0] == '\n')
    }
}

/// A line of a report: a label, then a path.
pub open spec fn report_line(label: &str, path: Seq<char>) -> Seq<char> {
    label@ + path + "\n"@
}

/// Whether `r` is the report of the error `e`: a headline, then one line
/// for each path involved; the reports of the two errors of a failed atomic
/// action are indented under their headings. The text of an I/O error is
/// the platform's, followed by a line break.
pub open spec fn describes(e: Error, r: Seq<char>) -> bool
    decreases e,
{
    match e {
        Error::Io(_) => r.len() > 0 && r.last() == '\n',
        Error::OneToMany { src, dst } => r == "multiple destinations detected:\n"@ + report_line(
            "       source ",
            src@,
        ) + report_line("  destination ", dst.0@) + report_line("              ", dst.1@),
        Error::ManyToOne { src, dst } => r == "collision detected:\n"@ + report_line(
            "       source ",
            src.0@,
        ) + report_line("              ", src.1@) + report_line("  destination ", dst@),
        Error::NonLeafNode { node, descendant } => r == "non-leaf node detected:\n"@
            + report_line("         node ", node@) + report_line("   descendant ", descendant@),
        Error::AlreadyExists { src, dst } => r == "destination already exists:\n"@ + report_line(
            "       source ",
            src@,
        ) + report_line("  destination ", dst@),
        Error::AtomicActionFailed { during_attempt, during_rollback } => exists|
            a: Seq<char>,
            b: Seq<char>,
        |
            describes(*during_attempt, a) && describes(*during_rollback, b) && r
                == "atomic action failed:\n"@ + "  during attempt:\n"@ + #[trigger] indented(a)
                + "  during rollback:\n"@ + #[trigger] indented(b),
    }
}

/// Relies on the `Display` of `std::io::Error`: the error's text, as the
/// platform words it.
#[verifier::external_body]
fn io_text(e: &std::io::Error) -> String {
    e.to_string()
}

/// `t` with each of its lines preceded by four spaces.
fn indent(t: &String) -> (r: String)
    ensures
        r@ == indented(t@),
{
    let chars = chars_of(t.as_str());
    let mut r = String::new();
    let mut start = true;
    let mut i: usize = 0;
    assert(chars@.subrange(0, chars.len() as int) =~= t@);
    assert(r@ + indented(t@) =~= indented(t@));
    while i < chars.len()
        invariant
            i <= chars.len(),
            chars@ == t@,
            r@ + indent_from(chars@.subrange(i as int, chars.len() as int), start) == indented(
                t@,
            ),
        decreases chars.len() - i,
    {
        let ghost rest = chars@.subrange(i as int, chars.len() as int);
        let ghost before = r@;
        let ghost was_start = start;
        assert(rest.drop_first() =~= chars@.subrange(i + 1, chars.len() as int));
        assert(rest[0] == chars@[i as int]);
        if start {
            r.append("    ");
        }
        push_char(&mut r, chars[i]);
        start = chars[i] == '\n';
        proof {
            let pre: Seq<char> = if was_start {
                "    "@
            } else {
                Seq::empty()
            };
            assert(r@ =~= before + pre + seq![rest[0]]);
            assert(indent_from(rest, was_start) == pre + seq![rest[0]] + indent_from(
                rest.drop_first(),
                start,
            ));
            assert(r@ + indent_from(rest.drop_first(), start) =~= before + indent_from(
                rest,
                was_start,
            ));
        }
        i += 1;
    }
    assert(chars@.subrange(i as int, chars.len() as int) =~= Seq::<char>::empty());
    assert(chars@.subrange(0, chars.len() as int) =~= t@);
    r
}

impl Error {
    /// A report of the error for a person: every path involved, and for a
    /// failed atomic action the reports of both of its errors.
    pub fn describe(&self) -> (r: String)
        ensures
            describes(*self, r@),
        decreases self,
    {
        let mut s = String::new();
        match self {
            Error::Io(e) => {
                s = io_text(e);
                push_char(&mut s, '\n');
            },
            Error::OneToMany { src, dst } => {
                s.append("multiple destinations detected:\n");
                s.append("       source ");
                s.append(src.as_str());
                s.append("\n");
                s.append("  destination ");
                s.append(dst.0.as_str());
                s.append("\n");
                s.append("              ");
                s.append(dst.1.as_str());
                s.append("\n");
                assert(s@ =~= "multiple destinations detected:\n"@ + report_line("       source ", src@)
                    + report_line("  destination ", dst.0@) + report_line("              ", dst.1@));
            },
            Error::ManyToOne { src, dst } => {
                s.append("collision detected:\n");
                s.append("       source ");
                s.append(src.0.as_str());
                s.append("\n");
                s.append("              ");
                s.append(src.1.as_str());
                s.append("\n");
                s.append("  destination ");
                s.append(dst.as_str());
                s.append("\n");
                assert(s@ =~= "collision detected:\n"@ + report_line("       source ", src.0@)
                    + report_line("              ", src.1@) + report_line("  destination ", dst@));
            },
            Error::NonLeafNode { node, descendant } => {
                s.append("non-leaf node detected:\n");
                s.append("         node ");
                s.append(node.as_str());
                s.append("\n");
                s.append("   descendant ");
                s.append(descendant.as_str());
                s.append("\n");
                assert(s@ =~= "non-leaf node detected:\n"@ + report_line("         node ", node@)
                    + report_line("   descendant ", descendant@));
            },
            Error::AlreadyExists { src, dst } => {
                s.append("destination already exists:\n");
                s.append("       source ");
                s.append(src.as_str());
                s.append("\n");
                s.append("  destination ");
                s.append(dst.as_str());
                s.append("\n");
                assert(s@ =~= "destination already exists:\n"@ + report_line("       source ", src@)
                    + report_line("  destination ", dst@));
            },
            Error::AtomicActionFailed { during_attempt, during_rollback } => {
                let a = during_attempt.describe();
                let b = during_rollback.describe();
                s.append("atomic action failed:\n");
                s.append("  during attempt:\n");
                let ia = indent(&a);
                s.append(ia.as_str());
                s.append("  during rollback:\n");
                let ib = indent(&b);
                s.append(ib.as_str());
                assert(s@ =~= "atomic action failed:\n"@ + "  during attempt:\n"@ + indented(a@)
                    + "  during rollback:\n"@ + indented(b@));
            },
        }
        s
    }
}

} // verus!
