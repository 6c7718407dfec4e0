//! Per-line session dispatch: one decoded protocol line goes through the
//! grammar and against the store, and yields one response line and whether
//! the session closes.

use crate::command::{parse_spec, Command, Type};
use crate::database::{lookup, Database};
use vstd::prelude::*;

verus! {

/// One response line, and whether the session ends after it is written.
pub struct Response {
    pub text: String,
    pub close: bool,
}

/// The store's map after one line is dispatched: `SET` and `UPDATE` insert,
/// `DELETE` removes, and everything else, a parse error included, leaves the
/// map as it is.
pub open spec fn step_map(m: Map<Seq<char>, Seq<char>>, line: Seq<char>) -> Map<
    Seq<char>,
    Seq<char>,
> {
    match parse_spec(line) {
        Result::Err(_) => m,
        Result::Ok(c) => match c.name {
            Type::SetOp => m.insert(c.key, c.value),
            Type::Update => m.insert(c.key, c.value),
            Type::Delete => m.remove(c.key),
            _ => m,
        },
    }
}

/// The response line one dispatched line earns: the parse error's text, or
/// `PONG` for `PING`, the looked-up value for `GET` (an empty line when the
/// key is absent), and `OK` for the rest, each newline-terminated.
pub open spec fn step_output(m: Map<Seq<char>, Seq<char>>, line: Seq<char>) -> Seq<char> {
    match parse_spec(line) {
        Result::Err(e) => e + "\n"@,
        Result::Ok(c) => match c.name {
            Type::Ping => "PONG\n"@,
            Type::Exit => "OK\n"@,
            Type::Get => lookup(m, c.key) + "\n"@,
            Type::SetOp => "OK\n"@,
            Type::Update => "OK\n"@,
            Type::Delete => "OK\n"@,
            Type::Unknown => "UNKNOWN\n"@,
        },
    }
}

/// Whether the line ends the session: only a well-formed `EXIT` does.
pub open spec fn step_close(line: Seq<char>) -> bool {
    parse_spec(line) matches Result::Ok(c) && c.name == Type::Exit
}

/// A valid `SET` (or `UPDATE`) followed by a `GET` of the same key, in the
/// same or any other session sharing the store, answers with the value the
/// set carried, newline-terminated.
pub proof fn lemma_session_set_then_get(
    m: Map<Seq<char>, Seq<char>>,
    set_line: Seq<char>,
    get_line: Seq<char>,
)
    requires
        parse_spec(set_line) matches Result::Ok(c) && (c.name == Type::SetOp || c.name
            == Type::Update),
        parse_spec(get_line) matches Result::Ok(g) && g.name == Type::Get && g.key == (parse_spec(
            set_line,
        )->Ok_0).key,
    ensures
        step_output(step_map(m, set_line), get_line) == (parse_spec(set_line)->Ok_0).value
            + "\n"@,
{
}

/// A `GET` of a key the store never held, or no longer holds, answers with
/// the empty marker: a bare newline.
pub proof fn lemma_session_get_absent(m: Map<Seq<char>, Seq<char>>, get_line: Seq<char>)
    requires
        parse_spec(get_line) matches Result::Ok(g) && g.name == Type::Get,
        !m.contains_key((parse_spec(get_line)->Ok_0).key),
    ensures
        step_output(m, get_line) == "\n"@,
{
    assert(Seq::<char>::empty() + "\n"@ =~= "\n"@);
}

/// A `DELETE` of an absent key still answers `OK` and leaves the map, and
/// with it the record count, unchanged.
pub proof fn lemma_session_delete_absent(m: Map<Seq<char>, Seq<char>>, del_line: Seq<char>)
    requires
        parse_spec(del_line) matches Result::Ok(c) && c.name == Type::Delete,
        !m.contains_key((parse_spec(del_line)->Ok_0).key),
    ensures
        step_map(m, del_line) == m,
        step_output(m, del_line) == "OK\n"@,
{
    assert(m.remove((parse_spec(del_line)->Ok_0).key) =~= m);
}

/// Dispatches one decoded protocol line against the store, as `step_map`,
/// `step_output` and `step_close` describe.
pub fn handle_line(db: &mut Database, line: &str) -> (r: Response)
    requires
        old(db).wf(),
    ensures
        final(db).wf(),
        final(db)@ == step_map(old(db)@, line@),
        final(db).spec_path() == old(db).spec_path(),
        r.text@ == step_output(old(db)@, line@),
        r.close == step_close(line@),
{
    match Command::from_str(line) {
        Result::Err(e) => Response { text: e.concat("\n"), close: false },
        Result::Ok(cmd) => {
            match *cmd.get_name() {
                Type::Ping => Response { text: String::from_str("PONG\n"), close: false },
                Type::Exit => Response { text: String::from_str("OK\n"), close: true },
                Type::Get => {
                    let v = db.get(cmd.get_key().as_str());
                    Response { text: v.concat("\n"), close: false }
                },
                Type::SetOp => {
                    db.set(cmd.get_key().as_str(), cmd.get_value().as_str());
                    Response { text: String::from_str("OK\n"), close: false }
                },
                Type::Update => {
                    db.set(cmd.get_key().as_str(), cmd.get_value().as_str());
                    Response { text: String::from_str("OK\n"), close: false }
                },
                Type::Delete => {
                    db.remove(cmd.get_key().as_str());
                    Response { text: String::from_str("OK\n"), close: false }
                },
                Type::Unknown => Response { text: String::from_str("UNKNOWN\n"), close: false },
            }
        },
    }
}

} // verus!
