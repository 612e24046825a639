//! Laws of running commands on the store.

use vstd::prelude::*;
use vstd::utf8::*;
use crate::command::{command_spec, execute_spec, name_upper, CommandView};
use crate::frame::FrameView;

verus! {

/// After SET stores a value under a key, GET of that key replies with that
/// value.
pub proof fn lemma_get_after_set(db: Map<Seq<char>, Seq<u8>>, key: Seq<char>, value: Seq<u8>)
    ensures
        ({
            let after = execute_spec(CommandView::SetValue { key, value }, db).1;
            execute_spec(CommandView::Get { key }, after) == (
                FrameView::BulkString(Some(value)),
                after,
            )
        }),
{
}

/// SET under one key leaves what GET replies for any other key unchanged.
pub proof fn lemma_set_keeps_other_keys(
    db: Map<Seq<char>, Seq<u8>>,
    key: Seq<char>,
    value: Seq<u8>,
    other: Seq<char>,
)
    requires
        other != key,
    ensures
        execute_spec(
            CommandView::Get { key: other },
            execute_spec(CommandView::SetValue { key, value }, db).1,
        ).0 == execute_spec(CommandView::Get { key: other }, db).0,
{
}

/// DEL replies 1 when the key held a value and 0 when it did not, and
/// afterwards GET of the key replies with a null bulk string and EXISTS
/// with 0.
pub proof fn lemma_del(db: Map<Seq<char>, Seq<u8>>, key: Seq<char>)
    ensures
        ({
            let (reply, after) = execute_spec(CommandView::Del { key }, db);
            &&& reply == FrameView::Integer(
                if db.contains_key(key) {
                    1
                } else {
                    0
                },
            )
            &&& execute_spec(CommandView::Get { key }, after).0 == FrameView::BulkString(None)
            &&& execute_spec(CommandView::Exists { key }, after).0 == FrameView::Integer(0)
        }),
{
}

/// DEL of a key that holds no value leaves the store as it was.
pub proof fn lemma_del_absent(db: Map<Seq<char>, Seq<u8>>, key: Seq<char>)
    requires
        !db.contains_key(key),
    ensures
        execute_spec(CommandView::Del { key }, db).1 == db,
{
    assert(db.remove(key) =~= db);
}

/// EXISTS replies 1 exactly when GET replies with a value.
pub proof fn lemma_exists_iff_get(db: Map<Seq<char>, Seq<u8>>, key: Seq<char>)
    ensures
        (execute_spec(CommandView::Exists { key }, db).0 == FrameView::Integer(1)) <==> (execute_spec(
            CommandView::Get { key },
            db,
        ).0 matches FrameView::BulkString(Some(_))),
{
}

/// PING, ECHO, GET and EXISTS leave the store as it was.
pub proof fn lemma_reads_keep_store(cmd: CommandView, db: Map<Seq<char>, Seq<u8>>)
    requires
        !(cmd is SetValue),
        !(cmd is Del),
    ensures
        execute_spec(cmd, db).1 == db,
{
}

/// ECHO replies with its message, and PING with a message replies with it
/// too.
pub proof fn lemma_echo(db: Map<Seq<char>, Seq<u8>>, msg: Seq<char>)
    ensures
        execute_spec(CommandView::Echo(msg), db).0 == FrameView::BulkString(Some(encode_utf8(msg))),
        execute_spec(CommandView::Ping(Some(msg)), db).0 == execute_spec(
            CommandView::Echo(msg),
            db,
        ).0,
{
}

/// Command names are read without regard to letter case: two frames with
/// the same arguments whose names upper-case alike decode alike.
pub proof fn lemma_name_case(a: Seq<u8>, b: Seq<u8>, args: Seq<FrameView>)
    requires
        valid_utf8(a),
        valid_utf8(b),
        name_upper(decode_utf8(a)) == name_upper(decode_utf8(b)),
    ensures
        command_spec(FrameView::Array(Some(seq![FrameView::BulkString(Some(a))] + args)))
            == command_spec(FrameView::Array(Some(seq![FrameView::BulkString(Some(b))] + args))),
{
    let fa = seq![FrameView::BulkString(Some(a))] + args;
    let fb = seq![FrameView::BulkString(Some(b))] + args;
    assert(fa.drop_first() =~= args);
    assert(fb.drop_first() =~= args);
}

/// SET replies `OK`, whether or not the key already held a value, and the
/// store afterwards is the old one with the key mapped to the new value:
/// that key reads back the value and every other key is as before.
pub proof fn lemma_set(db: Map<Seq<char>, Seq<u8>>, key: Seq<char>, value: Seq<u8>)
    ensures
        ({
            let (reply, after) = execute_spec(CommandView::SetValue { key, value }, db);
            &&& reply == FrameView::SimpleString("OK"@)
            &&& after.contains_key(key) && after[key] == value
            &&& forall|other: Seq<char>|
                other != key ==> (#[trigger] after.contains_key(other) == db.contains_key(other)
                    && (db.contains_key(other) ==> after[other] == db[other]))
            &&& after.dom() == db.dom().insert(key)
        }),
{
    let after = execute_spec(CommandView::SetValue { key, value }, db).1;
    assert(after.dom() =~= db.dom().insert(key));
}

/// DEL replies with the number of keys it removed, 1 or 0, removes that
/// key, and leaves every other key as it was.
pub proof fn lemma_del_keeps_other_keys(db: Map<Seq<char>, Seq<u8>>, key: Seq<char>)
    ensures
        ({
            let (reply, after) = execute_spec(CommandView::Del { key }, db);
            &&& reply == FrameView::Integer(
                if db.contains_key(key) {
                    1
                } else {
                    0
                },
            )
            &&& !after.contains_key(key)
            &&& forall|other: Seq<char>|
                other != key ==> (#[trigger] after.contains_key(other) == db.contains_key(other)
                    && (db.contains_key(other) ==> after[other] == db[other]))
            &&& after.dom() == db.dom().remove(key)
        }),
{
    let after = execute_spec(CommandView::Del { key }, db).1;
    assert(after.dom() =~= db.dom().remove(key));
}

/// GET replies with the value stored under the key, or a null bulk string
/// when there is none, and changes nothing.
pub proof fn lemma_get(db: Map<Seq<char>, Seq<u8>>, key: Seq<char>)
    ensures
        ({
            let (reply, after) = execute_spec(CommandView::Get { key }, db);
            &&& db.contains_key(key) ==> reply == FrameView::BulkString(Some(db[key]))
            &&& !db.contains_key(key) ==> reply == FrameView::BulkString(None)
            &&& after == db
        }),
{
}

/// EXISTS replies 1 when the key holds a value and 0 when it does not, and
/// changes nothing.
pub proof fn lemma_exists(db: Map<Seq<char>, Seq<u8>>, key: Seq<char>)
    ensures
        ({
            let (reply, after) = execute_spec(CommandView::Exists { key }, db);
            &&& db.contains_key(key) ==> reply == FrameView::Integer(1)
            &&& !db.contains_key(key) ==> reply == FrameView::Integer(0)
            &&& after == db
        }),
{
}

/// PING without a message replies `PONG`; with one it replies with the
/// message's bytes. Neither changes the store.
pub proof fn lemma_ping(db: Map<Seq<char>, Seq<u8>>, msg: Seq<char>)
    ensures
        execute_spec(CommandView::Ping(None), db) == (FrameView::SimpleString("PONG"@), db),
        execute_spec(CommandView::Ping(Some(msg)), db) == (
            FrameView::BulkString(Some(encode_utf8(msg))),
            db,
        ),
{
}

/// Reveals the command names, which differ from one another.
proof fn lemma_names()
    ensures
        "PING"@ == seq!['P', 'I', 'N', 'G'],
        "ECHO"@ == seq!['E', 'C', 'H', 'O'],
        "GET"@ == seq!['G', 'E', 'T'],
        "SET"@ == seq!['S', 'E', 'T'],
        "DEL"@ == seq!['D', 'E', 'L'],
        "EXISTS"@ == seq!['E', 'X', 'I', 'S', 'T', 'S'],
{
    reveal_strlit("PING");
    reveal_strlit("ECHO");
    reveal_strlit("GET");
    reveal_strlit("SET");
    reveal_strlit("DEL");
    reveal_strlit("EXISTS");
    assert("PING"@ =~= seq!['P', 'I', 'N', 'G']);
    assert("ECHO"@ =~= seq!['E', 'C', 'H', 'O']);
    assert("GET"@ =~= seq!['G', 'E', 'T']);
    assert("SET"@ =~= seq!['S', 'E', 'T']);
    assert("DEL"@ =~= seq!['D', 'E', 'L']);
    assert("EXISTS"@ =~= seq!['E', 'X', 'I', 'S', 'T', 'S']);
}

/// A request naming SET, in any letter case, with a key in UTF-8 and a
/// value decodes as SET of that key to that value: the value is the
/// argument right after the key, whatever arguments follow it.
pub proof fn lemma_decode_set(
    name: Seq<u8>,
    key: Seq<u8>,
    value: Seq<u8>,
    extra: Seq<FrameView>,
)
    requires
        valid_utf8(name),
        name_upper(decode_utf8(name)) == "SET"@,
        valid_utf8(key),
    ensures
        command_spec(
            FrameView::Array(
                Some(
                    seq![
                        FrameView::BulkString(Some(name)),
                        FrameView::BulkString(Some(key)),
                        FrameView::BulkString(Some(value)),
                    ] + extra,
                ),
            ),
        ) == Ok::<CommandView, Seq<char>>(
            CommandView::SetValue { key: decode_utf8(key), value },
        ),
{
    lemma_names();
    let items = seq![
        FrameView::BulkString(Some(name)),
        FrameView::BulkString(Some(key)),
        FrameView::BulkString(Some(value)),
    ] + extra;
    let args = items.drop_first();
    assert(args[0] == FrameView::BulkString(Some(key)));
    assert(args.drop_first()[0] == FrameView::BulkString(Some(value)));
}

/// A request naming GET, DEL, EXISTS or ECHO, in any letter case, with a
/// first argument in UTF-8 decodes as that command on that argument,
/// whatever arguments follow it.
pub proof fn lemma_decode_one_argument(name: Seq<u8>, arg: Seq<u8>, extra: Seq<FrameView>)
    requires
        valid_utf8(name),
        valid_utf8(arg),
    ensures
        ({
            let upper = name_upper(decode_utf8(name));
            let decoded = command_spec(
                FrameView::Array(
                    Some(
                        seq![FrameView::BulkString(Some(name)), FrameView::BulkString(Some(arg))]
                            + extra,
                    ),
                ),
            );
            let text = decode_utf8(arg);
            &&& upper == "GET"@ ==> decoded == Ok::<CommandView, Seq<char>>(
                CommandView::Get { key: text },
            )
            &&& upper == "DEL"@ ==> decoded == Ok::<CommandView, Seq<char>>(
                CommandView::Del { key: text },
            )
            &&& upper == "EXISTS"@ ==> decoded == Ok::<CommandView, Seq<char>>(
                CommandView::Exists { key: text },
            )
            &&& upper == "ECHO"@ ==> decoded == Ok::<CommandView, Seq<char>>(
                CommandView::Echo(text),
            )
            &&& upper == "PING"@ ==> decoded == Ok::<CommandView, Seq<char>>(
                CommandView::Ping(Some(text)),
            )
        }),
{
    lemma_names();
    let items = seq![FrameView::BulkString(Some(name)), FrameView::BulkString(Some(arg))] + extra;
    assert(items.drop_first()[0] == FrameView::BulkString(Some(arg)));
}

/// A request naming PING, in any letter case, with no arguments decodes as
/// PING without a message.
pub proof fn lemma_decode_ping(name: Seq<u8>)
    requires
        valid_utf8(name),
        name_upper(decode_utf8(name)) == "PING"@,
    ensures
        command_spec(FrameView::Array(Some(seq![FrameView::BulkString(Some(name))]))) == Ok::<
            CommandView,
            Seq<char>,
        >(CommandView::Ping(None)),
{
    lemma_names();
    assert(seq![FrameView::BulkString(Some(name))].drop_first().len() == 0);
}

/// A frame that is not an array, or is a null array, is refused as not an
/// array; an empty array, or one whose first element is not a non-null bulk
/// string, is refused as not a command.
pub proof fn lemma_decode_refuses_non_commands(f: FrameView)
    ensures
        !(f matches FrameView::Array(Some(_))) ==> command_spec(f) == Err::<CommandView, Seq<char>>(
            "expected array frame"@,
        ),
        f matches FrameView::Array(Some(items)) && (items.len() == 0 || !(
        items[0] matches FrameView::BulkString(Some(_)))) ==> command_spec(f) == Err::<
            CommandView,
            Seq<char>,
        >("invalid command frame"@),
{
}

/// A request naming GET, DEL, EXISTS, ECHO or SET with no arguments is
/// refused, saying which argument is missing.
pub proof fn lemma_decode_missing_argument(name: Seq<u8>)
    requires
        valid_utf8(name),
    ensures
        ({
            let upper = name_upper(decode_utf8(name));
            let decoded = command_spec(
                FrameView::Array(Some(seq![FrameView::BulkString(Some(name))])),
            );
            &&& upper == "GET"@ ==> decoded == Err::<CommandView, Seq<char>>(
                "GET key: missing argument"@,
            )
            &&& upper == "DEL"@ ==> decoded == Err::<CommandView, Seq<char>>(
                "DEL key: missing argument"@,
            )
            &&& upper == "EXISTS"@ ==> decoded == Err::<CommandView, Seq<char>>(
                "EXISTS key: missing argument"@,
            )
            &&& upper == "ECHO"@ ==> decoded == Err::<CommandView, Seq<char>>(
                "ECHO: missing argument"@,
            )
            &&& upper == "SET"@ ==> decoded == Err::<CommandView, Seq<char>>(
                "SET key: missing argument"@,
            )
        }),
{
    lemma_names();
    reveal_strlit(": missing argument");
    reveal_strlit("GET key");
    reveal_strlit("DEL key");
    reveal_strlit("EXISTS key");
    reveal_strlit("ECHO");
    reveal_strlit("SET key");
    reveal_strlit("GET key: missing argument");
    reveal_strlit("DEL key: missing argument");
    reveal_strlit("EXISTS key: missing argument");
    reveal_strlit("ECHO: missing argument");
    reveal_strlit("SET key: missing argument");
    assert("GET key"@ + ": missing argument"@ =~= "GET key: missing argument"@);
    assert("DEL key"@ + ": missing argument"@ =~= "DEL key: missing argument"@);
    assert("EXISTS key"@ + ": missing argument"@ =~= "EXISTS key: missing argument"@);
    assert("ECHO"@ + ": missing argument"@ =~= "ECHO: missing argument"@);
    assert("SET key"@ + ": missing argument"@ =~= "SET key: missing argument"@);
}

/// A request naming SET with a key but no value is refused, saying the
/// value is missing.
pub proof fn lemma_decode_set_missing_value(name: Seq<u8>, key: Seq<u8>)
    requires
        valid_utf8(name),
        name_upper(decode_utf8(name)) == "SET"@,
        valid_utf8(key),
    ensures
        command_spec(
            FrameView::Array(
                Some(seq![FrameView::BulkString(Some(name)), FrameView::BulkString(Some(key))]),
            ),
        ) == Err::<CommandView, Seq<char>>("SET value: missing argument"@),
{
    lemma_names();
    reveal_strlit("SET value");
    reveal_strlit(": missing argument");
    reveal_strlit("SET value: missing argument");
    assert("SET value"@ + ": missing argument"@ =~= "SET value: missing argument"@);
    let items = seq![FrameView::BulkString(Some(name)), FrameView::BulkString(Some(key))];
    assert(items.drop_first()[0] == FrameView::BulkString(Some(key)));
    assert(items.drop_first().drop_first().len() == 0);
}

/// A request whose name, upper-cased, is none of PING, ECHO, GET, SET, DEL
/// and EXISTS is refused as an unknown command, quoting the upper-cased
/// name.
pub proof fn lemma_decode_unknown(name: Seq<u8>, args: Seq<FrameView>)
    requires
        valid_utf8(name),
        name_upper(decode_utf8(name)) != "PING"@,
        name_upper(decode_utf8(name)) != "ECHO"@,
        name_upper(decode_utf8(name)) != "GET"@,
        name_upper(decode_utf8(name)) != "SET"@,
        name_upper(decode_utf8(name)) != "DEL"@,
        name_upper(decode_utf8(name)) != "EXISTS"@,
    ensures
        command_spec(FrameView::Array(Some(seq![FrameView::BulkString(Some(name))] + args)))
            == Err::<CommandView, Seq<char>>(
            "unknown command '"@ + name_upper(decode_utf8(name)) + "'"@,
        ),
{
    let items = seq![FrameView::BulkString(Some(name))] + args;
    assert(items[0] == FrameView::BulkString(Some(name)));
}

} // verus!
