//! Redis commands: decoding them from frames and running them on the store.

use vstd::prelude::*;
use vstd::utf8::*;
use vstd::slice::slice_to_vec;
use crate::db::Db;
use crate::frame::{lemma_views_of, views_of, FrameView, RespFrame};
use crate::text::{ascii_upper, same_text, string_from_utf8, to_uppercase, uppercase};

verus! {

/// A decoded Redis command.
#[derive(Debug)]
pub enum Command {
    Ping(Option<String>),
    Echo(String),
    Get { key: String },
    SetValue { key: String, value: Vec<u8> },
    Del { key: String },
    Exists { key: String },
}

/// A command as a mathematical value.
pub enum CommandView {
    Ping(Option<Seq<char>>),
    Echo(Seq<char>),
    Get { key: Seq<char> },
    SetValue { key: Seq<char>, value: Seq<u8> },
    Del { key: Seq<char> },
    Exists { key: Seq<char> },
}

impl View for Command {
    type V = CommandView;

    open spec fn view(&self) -> CommandView {
        match self {
            Command::Ping(msg) => CommandView::Ping(
                match msg {
                    Some(s) => Some(s@),
                    None => None,
                },
            ),
            Command::Echo(msg) => CommandView::Echo(msg@),
            Command::Get { key } => CommandView::Get { key: key@ },
            Command::SetValue { key, value } => CommandView::SetValue { key: key@, value: value@ },
            Command::Del { key } => CommandView::Del { key: key@ },
            Command::Exists { key } => CommandView::Exists { key: key@ },
        }
    }
}

/// The payload of the first argument, or why there is none: the argument
/// is missing, null, or not a bulk string. `name` labels the message.
pub open spec fn bulk_arg(args: Seq<FrameView>, name: Seq<char>) -> Result<Seq<u8>, Seq<char>> {
    if args.len() == 0 {
        Err(name + ": missing argument"@)
    } else {
        match args[0] {
            FrameView::BulkString(Some(b)) => Ok(b),
            FrameView::BulkString(None) => Err(name + ": expected non-null value"@),
            _ => Err(name + ": expected bulk string"@),
        }
    }
}

/// The first argument as text, or why it is not one.
pub open spec fn text_arg(args: Seq<FrameView>, name: Seq<char>) -> Result<Seq<char>, Seq<char>> {
    match bulk_arg(args, name) {
        Ok(b) => if valid_utf8(b) {
            Ok(decode_utf8(b))
        } else {
            Err(name + ": invalid utf8"@)
        },
        Err(e) => Err(e),
    }
}

/// The command named `name` (already upper-cased) with arguments `args`,
/// or the message that refuses it. Arguments beyond those a command takes
/// are ignored.
pub open spec fn command_from_name_spec(name: Seq<char>, args: Seq<FrameView>) -> Result<
    CommandView,
    Seq<char>,
> {
    if name == "PING"@ {
        if args.len() == 0 {
            Ok(CommandView::Ping(None))
        } else {
            match args[0] {
                FrameView::BulkString(Some(b)) => if valid_utf8(b) {
                    Ok(CommandView::Ping(Some(decode_utf8(b))))
                } else {
                    Err("invalid ping arg utf8"@)
                },
                _ => Err("invalid ping argument"@),
            }
        }
    } else if name == "ECHO"@ {
        match text_arg(args, "ECHO"@) {
            Ok(m) => Ok(CommandView::Echo(m)),
            Err(e) => Err(e),
        }
    } else if name == "GET"@ {
        match text_arg(args, "GET key"@) {
            Ok(k) => Ok(CommandView::Get { key: k }),
            Err(e) => Err(e),
        }
    } else if name == "SET"@ {
        match text_arg(args, "SET key"@) {
            Ok(k) => match bulk_arg(args.drop_first(), "SET value"@) {
                Ok(v) => Ok(CommandView::SetValue { key: k, value: v }),
                Err(e) => Err(e),
            },
            Err(e) => Err(e),
        }
    } else if name == "DEL"@ {
        match text_arg(args, "DEL key"@) {
            Ok(k) => Ok(CommandView::Del { key: k }),
            Err(e) => Err(e),
        }
    } else if name == "EXISTS"@ {
        match text_arg(args, "EXISTS key"@) {
            Ok(k) => Ok(CommandView::Exists { key: k }),
            Err(e) => Err(e),
        }
    } else {
        Err("unknown command '"@ + name + "'"@)
    }
}

/// The upper-case form of a command name: for ASCII text, its letters
/// upper-cased; otherwise the Unicode upper-case mapping.
pub open spec fn name_upper(name: Seq<char>) -> Seq<char> {
    if is_ascii_chars(name) {
        ascii_upper(name)
    } else {
        uppercase(name)
    }
}

/// The command that a frame carries, or the message that refuses it. The
/// frame must be an array whose first element is a bulk string naming the
/// command in UTF-8, in any letter case.
pub open spec fn command_spec(f: FrameView) -> Result<CommandView, Seq<char>> {
    match f {
        FrameView::Array(Some(items)) => if items.len() > 0 && items[0] is BulkString
            && items[0]->BulkString_0 is Some {
            let b = items[0]->BulkString_0->0;
            if valid_utf8(b) {
                command_from_name_spec(name_upper(decode_utf8(b)), items.drop_first())
            } else {
                Err("invalid command utf8"@)
            }
        } else {
            Err("invalid command frame"@)
        },
        _ => Err("expected array frame"@),
    }
}

/// The reply to running `cmd` on a store holding `db`, and what the store
/// holds afterwards.
pub open spec fn execute_spec(cmd: CommandView, db: Map<Seq<char>, Seq<u8>>) -> (
    FrameView,
    Map<Seq<char>, Seq<u8>>,
) {
    match cmd {
        CommandView::Ping(None) => (FrameView::SimpleString("PONG"@), db),
        CommandView::Ping(Some(msg)) => (FrameView::BulkString(Some(encode_utf8(msg))), db),
        CommandView::Echo(msg) => (FrameView::BulkString(Some(encode_utf8(msg))), db),
        CommandView::Get { key } => (
            if db.contains_key(key) {
                FrameView::BulkString(Some(db[key]))
            } else {
                FrameView::BulkString(None)
            },
            db,
        ),
        CommandView::SetValue { key, value } => (
            FrameView::SimpleString("OK"@),
            db.insert(key, value),
        ),
        CommandView::Del { key } => (
            FrameView::Integer(
                if db.contains_key(key) {
                    1
                } else {
                    0
                },
            ),
            db.remove(key),
        ),
        CommandView::Exists { key } => (
            FrameView::Integer(
                if db.contains_key(key) {
                    1
                } else {
                    0
                },
            ),
            db,
        ),
    }
}

/// `name` followed by `suffix`.
fn labelled(name: &str, suffix: &str) -> (res: String)
    ensures
        res@ == name@ + suffix@,
{
    let mut s = name.to_owned();
    s.append(suffix);
    s
}

/// Dropping the first frame drops the first model.
proof fn lemma_views_of_drop_first(s: Seq<RespFrame>)
    requires
        s.len() > 0,
    ensures
        views_of(s.drop_first()) == views_of(s).drop_first(),
{
    lemma_views_of(s);
    lemma_views_of(s.drop_first());
    assert(views_of(s.drop_first()) =~= views_of(s).drop_first());
}

/// Takes the next argument and returns its payload, which must be a
/// non-null bulk string. The argument is consumed even when refused.
pub fn next_bulk_bytes(args: &mut Vec<RespFrame>, name: &str) -> (res: Result<Vec<u8>, String>)
    ensures
        final(args)@ == if old(args)@.len() == 0 {
            old(args)@
        } else {
            old(args)@.drop_first()
        },
        match res {
            Ok(b) => bulk_arg(views_of(old(args)@), name@) == Ok::<Seq<u8>, Seq<char>>(b@),
            Err(e) => bulk_arg(views_of(old(args)@), name@) == Err::<Seq<u8>, Seq<char>>(e@),
        },
{
    proof {
        lemma_views_of(args@);
    }
    if args.len() == 0 {
        return Err(labelled(name, ": missing argument"));
    }
    let item = args.remove(0);
    assert(args@ =~= old(args)@.drop_first());
    match item {
        RespFrame::BulkString(Some(b)) => Ok(b),
        RespFrame::BulkString(None) => Err(labelled(name, ": expected non-null value")),
        _ => Err(labelled(name, ": expected bulk string")),
    }
}

/// Takes the next argument and returns it as text; it must be a non-null
/// bulk string holding UTF-8. The argument is consumed even when refused.
pub fn next_bulk_string(args: &mut Vec<RespFrame>, name: &str) -> (res: Result<String, String>)
    ensures
        final(args)@ == if old(args)@.len() == 0 {
            old(args)@
        } else {
            old(args)@.drop_first()
        },
        match res {
            Ok(s) => text_arg(views_of(old(args)@), name@) == Ok::<Seq<char>, Seq<char>>(s@),
            Err(e) => text_arg(views_of(old(args)@), name@) == Err::<Seq<char>, Seq<char>>(e@),
        },
{
    let bytes = match next_bulk_bytes(args, name) {
        Ok(b) => b,
        Err(e) => {
            return Err(e);
        },
    };
    match string_from_utf8(bytes) {
        Some(s) => Ok(s),
        None => Err(labelled(name, ": invalid utf8")),
    }
}

impl Command {
    /// Decodes the command named `name`, already upper-cased, from its
    /// arguments `args`.
    pub fn from_name(name: &str, args: Vec<RespFrame>) -> (res: Result<Command, String>)
        ensures
            match res {
                Ok(c) => command_from_name_spec(name@, views_of(args@)) == Ok::<
                    CommandView,
                    Seq<char>,
                >(c@),
                Err(e) => command_from_name_spec(name@, views_of(args@)) == Err::<
                    CommandView,
                    Seq<char>,
                >(e@),
            },
    {
        let ghost all = args@;
        let mut args = args;
        proof {
            lemma_views_of(all);
            reveal_strlit("PING");
            reveal_strlit("ECHO");
            reveal_strlit("GET");
            reveal_strlit("SET");
            reveal_strlit("DEL");
            reveal_strlit("EXISTS");
        }
        if same_text(name, "PING") {
            if args.len() == 0 {
                return Ok(Command::Ping(None));
            }
            let item = args.remove(0);
            match item {
                RespFrame::BulkString(Some(b)) => match string_from_utf8(b) {
                    Some(s) => Ok(Command::Ping(Some(s))),
                    None => Err("invalid ping arg utf8".to_owned()),
                },
                _ => Err("invalid ping argument".to_owned()),
            }
        } else if same_text(name, "ECHO") {
            match next_bulk_string(&mut args, "ECHO") {
                Ok(msg) => Ok(Command::Echo(msg)),
                Err(e) => Err(e),
            }
        } else if same_text(name, "GET") {
            match next_bulk_string(&mut args, "GET key") {
                Ok(key) => Ok(Command::Get { key }),
                Err(e) => Err(e),
            }
        } else if same_text(name, "SET") {
            let key = match next_bulk_string(&mut args, "SET key") {
                Ok(key) => key,
                Err(e) => {
                    return Err(e);
                },
            };
            proof {
                lemma_views_of_drop_first(all);
            }
            match next_bulk_bytes(&mut args, "SET value") {
                Ok(value) => Ok(Command::SetValue { key, value }),
                Err(e) => Err(e),
            }
        } else if same_text(name, "DEL") {
            match next_bulk_string(&mut args, "DEL key") {
                Ok(key) => Ok(Command::Del { key }),
                Err(e) => Err(e),
            }
        } else if same_text(name, "EXISTS") {
            match next_bulk_string(&mut args, "EXISTS key") {
                Ok(key) => Ok(Command::Exists { key }),
                Err(e) => Err(e),
            }
        } else {
            let mut msg = labelled("unknown command '", name);
            msg.append("'");
            Err(msg)
        }
    }

    /// Decodes the command that `frame` carries: an array whose first
    /// element, a bulk string, names the command in any letter case, and
    /// whose other elements are its arguments. On refusal, returns the
    /// message that says why.
    pub fn parse(frame: RespFrame) -> (res: Result<Command, String>)
        ensures
            match res {
                Ok(c) => command_spec(frame@) == Ok::<CommandView, Seq<char>>(c@),
                Err(e) => command_spec(frame@) == Err::<CommandView, Seq<char>>(e@),
            },
    {
        let items = match frame {
            RespFrame::Array(Some(items)) => items,
            _ => {
                return Err("expected array frame".to_owned());
            },
        };
        let ghost all = items@;
        proof {
            lemma_views_of(all);
        }
        let mut items = items;
        if items.len() == 0 {
            return Err("invalid command frame".to_owned());
        }
        let head = items.remove(0);
        proof {
            assert(items@ =~= all.drop_first());
            lemma_views_of_drop_first(all);
        }
        let name_bytes = match head {
            RespFrame::BulkString(Some(b)) => b,
            _ => {
                return Err("invalid command frame".to_owned());
            },
        };
        let name = match string_from_utf8(name_bytes) {
            Some(s) => s,
            None => {
                return Err("invalid command utf8".to_owned());
            },
        };
        let upper = to_uppercase(name.as_str());
        Command::from_name(upper.as_str(), items)
    }
    /// Runs the command on `db` and returns the reply: `PONG` or the message
    /// for PING, the message for ECHO, the value or a null bulk string for
    /// GET, `OK` for SET, and for DEL and EXISTS the number of keys that
    /// were there.
    pub fn execute(self, db: &mut Db) -> (res: RespFrame)
        ensures
            (res@, final(db)@) == execute_spec(self@, old(db)@),
    {
        match self {
            Command::Ping(msg) => match msg {
                Some(s) => RespFrame::BulkString(Some(slice_to_vec(s.as_str().as_bytes()))),
                None => RespFrame::SimpleString("PONG".to_owned()),
            },
            Command::Echo(msg) => RespFrame::BulkString(Some(slice_to_vec(msg.as_str().as_bytes()))),
            Command::Get { key } => match db.get(key.as_str()) {
                Some(v) => RespFrame::BulkString(Some(v)),
                None => RespFrame::BulkString(None),
            },
            Command::SetValue { key, value } => {
                db.set(key, value);
                RespFrame::SimpleString("OK".to_owned())
            },
            Command::Del { key } => {
                let removed: i64 = if db.del(key.as_str()) {
                    1
                } else {
                    0
                };
                RespFrame::Integer(removed)
            },
            Command::Exists { key } => {
                let found: i64 = if db.contains_key(key.as_str()) {
                    1
                } else {
                    0
                };
                RespFrame::Integer(found)
            },
        }
    }
}

} // verus!
