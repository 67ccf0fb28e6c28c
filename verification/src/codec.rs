//! The shape codec: between JSON documents and the entry model.
//!
//! A database document is a JSON array of entry objects.  An entry object
//! carries string-valued `directory` and `file` fields, its command line as
//! either an `arguments` string array or a shell-escaped `command` string,
//! and an optional string-valued `output` field.
//!
//! Decoding policy, applied uniformly: a top-level value that is not an
//! array, and an array element that is not an object, are syntax-class
//! errors; everything else found inside an entry object is a semantic
//! fault, and the faults of all offending entries are aggregated.  Inside
//! an object, a known key that appears twice is a fault; a known key with
//! a value of the wrong type is a fault; unknown keys are ignored.  When
//! both `arguments` and `command` are present and well-typed, `arguments`
//! wins.  An entry whose argument list comes out empty is a fault, so
//! invalid data never round-trips silently.

use vstd::prelude::*;

use crate::json::{Json, JsonV, jview, jview_members, jview_seq, lemma_jview_members,
    lemma_jview_seq, print_json, spec_parse, wf_json, wf_members, wf_seq, lemma_parse_print,
    from_text, to_text};
use crate::model::{Entries, Entry, EntryFault, EntryFaultV, EntryV, Error, ErrorV, Fault, FaultV,
    Format, SyntaxFault, entry_valid};
use crate::shell;

verus! {

/// The conventional file name that tools look a database up under.
pub const DEFAULT_FILE_NAME: &'static str = "compile_commands.json";

/// The `directory` key.
pub open spec fn dir_key() -> Seq<char> {
    seq!['d', 'i', 'r', 'e', 'c', 't', 'o', 'r', 'y']
}

/// The `file` key.
pub open spec fn file_key() -> Seq<char> {
    seq!['f', 'i', 'l', 'e']
}

/// The `command` key.
pub open spec fn cmd_key() -> Seq<char> {
    seq!['c', 'o', 'm', 'm', 'a', 'n', 'd']
}

/// The `arguments` key.
pub open spec fn args_key() -> Seq<char> {
    seq!['a', 'r', 'g', 'u', 'm', 'e', 'n', 't', 's']
}

/// The `output` key.
pub open spec fn out_key() -> Seq<char> {
    seq!['o', 'u', 't', 'p', 'u', 't']
}

/// How often a key appears among the members.
pub open spec fn key_count(ms: Seq<(Seq<char>, JsonV)>, k: Seq<char>) -> nat
    decreases ms.len(),
{
    if ms.len() == 0 {
        0
    } else {
        ((if ms.first().0 == k {
            1nat
        } else {
            0nat
        }) + key_count(ms.drop_first(), k)) as nat
    }
}

/// The value under the first occurrence of a key.
pub open spec fn key_find(ms: Seq<(Seq<char>, JsonV)>, k: Seq<char>) -> Option<JsonV>
    decreases ms.len(),
{
    if ms.len() == 0 {
        None
    } else if ms.first().0 == k {
        Some(ms.first().1)
    } else {
        key_find(ms.drop_first(), k)
    }
}

/// Whether the value is an array of strings.
pub open spec fn is_str_arr(v: JsonV) -> bool {
    v is Arr && (forall|i: int| 0 <= i < v->Arr_0.len() ==> v->Arr_0[i] is Str)
}

/// The strings of an array of strings.
pub open spec fn strs_of(items: Seq<JsonV>) -> Seq<Seq<char>> {
    Seq::new(items.len(), |i: int| items[i]->Str_0)
}

/// Decodes one entry object, already known to be an object, into the
/// canonical model, or into the first fault found.  Faults are looked for
/// in a fixed order: duplicate keys, then missing or mistyped `directory`
/// and `file`, then mistyped `command` and `arguments`, then mistyped
/// `output`, then the command-line shape, then an empty argument list.
pub open spec fn spec_decode_entry(ms: Seq<(Seq<char>, JsonV)>) -> Result<EntryV, FaultV> {
    if key_count(ms, dir_key()) > 1 {
        Err(FaultV::DuplicateField(dir_key()))
    } else if key_count(ms, file_key()) > 1 {
        Err(FaultV::DuplicateField(file_key()))
    } else if key_count(ms, cmd_key()) > 1 {
        Err(FaultV::DuplicateField(cmd_key()))
    } else if key_count(ms, args_key()) > 1 {
        Err(FaultV::DuplicateField(args_key()))
    } else if key_count(ms, out_key()) > 1 {
        Err(FaultV::DuplicateField(out_key()))
    } else {
        match key_find(ms, dir_key()) {
            None => Err(FaultV::MissingField(dir_key())),
            Some(dv) => if !(dv is Str) {
                Err(FaultV::WrongFieldType(dir_key()))
            } else {
                match key_find(ms, file_key()) {
                    None => Err(FaultV::MissingField(file_key())),
                    Some(fv) => if !(fv is Str) {
                        Err(FaultV::WrongFieldType(file_key()))
                    } else {
                        let cv = key_find(ms, cmd_key());
                        let av = key_find(ms, args_key());
                        let ov = key_find(ms, out_key());
                        if cv is Some && !(cv->0 is Str) {
                            Err(FaultV::WrongFieldType(cmd_key()))
                        } else if av is Some && !is_str_arr(av->0) {
                            Err(FaultV::WrongFieldType(args_key()))
                        } else if ov is Some && !(ov->0 is Str) {
                            Err(FaultV::WrongFieldType(out_key()))
                        } else {
                            let args: Result<Seq<Seq<char>>, FaultV> = if av is Some {
                                Ok(strs_of(av->0->Arr_0))
                            } else if cv is Some {
                                match shell::spec_split(cv->0->Str_0) {
                                    Some(ws) => Ok(ws),
                                    None => Err(FaultV::BadQuoting(cv->0->Str_0)),
                                }
                            } else {
                                Err(FaultV::NoCommand)
                            };
                            match args {
                                Err(f) => Err(f),
                                Ok(ws) => if ws.len() == 0 {
                                    Err(FaultV::EmptyArguments)
                                } else {
                                    Ok(
                                        EntryV {
                                            directory: dv->Str_0,
                                            file: fv->Str_0,
                                            arguments: ws,
                                            output: match ov {
                                                Some(o) => Some(o->Str_0),
                                                None => None,
                                            },
                                        },
                                    )
                                },
                            }
                        }
                    },
                }
            },
        }
    }
}

/// Decodes the elements of the document array, `base` being the index of
/// the first one.  An element that is not an object is a syntax-class
/// error naming the first such index; otherwise the faults of all
/// offending entries are aggregated into one semantic error.
pub open spec fn spec_decode_entries(elems: Seq<JsonV>, base: int) -> Result<
    Seq<EntryV>,
    ErrorV,
>
    decreases elems.len(),
{
    if elems.len() == 0 {
        Ok(Seq::empty())
    } else {
        let h = elems.first();
        if !(h is Obj) {
            Err(ErrorV::Syntax(SyntaxFault::ElementNotObject(base as usize)))
        } else {
            let head = spec_decode_entry(h->Obj_0);
            let rest = spec_decode_entries(elems.drop_first(), base + 1);
            match head {
                Ok(e) => match rest {
                    Ok(es) => Ok(seq![e] + es),
                    Err(err) => Err(err),
                },
                Err(f) => {
                    let ef = EntryFaultV { index: base, fault: f };
                    match rest {
                        Ok(es) => Err(ErrorV::Semantic(seq![ef])),
                        Err(ErrorV::Semantic(fs)) => Err(ErrorV::Semantic(seq![ef] + fs)),
                        Err(err) => Err(err),
                    }
                },
            }
        }
    }
}

/// What decoding a parsed document returns.
pub open spec fn spec_load(j: JsonV) -> Result<Seq<EntryV>, ErrorV> {
    match j {
        JsonV::Arr(elems) => spec_decode_entries(elems, 0),
        _ => Err(ErrorV::Syntax(SyntaxFault::TopLevelNotArray)),
    }
}

/// What decoding a whole text returns.
pub open spec fn spec_load_text(s: Seq<char>) -> Result<Seq<EntryV>, ErrorV> {
    match spec_parse(s) {
        None => Err(ErrorV::Syntax(SyntaxFault::Malformed)),
        Some(j) => spec_load(j),
    }
}

/// The faults the validator finds: one per entry with an empty argument
/// list, `base` being the index of the first entry.
pub open spec fn spec_validate_faults(es: Seq<EntryV>, base: int) -> Seq<EntryFaultV>
    decreases es.len(),
{
    if es.len() == 0 {
        Seq::empty()
    } else {
        (if es.first().arguments.len() == 0 {
            seq![EntryFaultV { index: base, fault: FaultV::EmptyArguments }]
        } else {
            Seq::empty()
        }) + spec_validate_faults(es.drop_first(), base + 1)
    }
}

/// What the validator returns.
pub open spec fn spec_validate(es: Seq<EntryV>) -> Result<(), ErrorV> {
    if spec_validate_faults(es, 0).len() == 0 {
        Ok(())
    } else {
        Err(ErrorV::Semantic(spec_validate_faults(es, 0)))
    }
}

/// The JSON object written for one entry: `directory`, `file`, then the
/// command line in the shape the format asks for, then `output` unless it
/// is absent or dropped.
pub open spec fn spec_encode_entry(e: EntryV, fmt: Format) -> JsonV {
    JsonV::Obj(
        seq![(dir_key(), JsonV::Str(e.directory)), (file_key(), JsonV::Str(e.file))] + (
        if fmt.command_as_array {
            seq![
                (
                    args_key(),
                    JsonV::Arr(Seq::new(e.arguments.len(), |i: int| JsonV::Str(e.arguments[i]))),
                ),
            ]
        } else {
            seq![(cmd_key(), JsonV::Str(shell::spec_join(e.arguments)))]
        }) + (match e.output {
            Some(o) => if fmt.drop_output_field {
                Seq::empty()
            } else {
                seq![(out_key(), JsonV::Str(o))]
            },
            None => Seq::empty(),
        }),
    )
}

/// The JSON document written for a database.
pub open spec fn spec_encode_db(es: Seq<EntryV>, fmt: Format) -> JsonV {
    JsonV::Arr(Seq::new(es.len(), |i: int| spec_encode_entry(es[i], fmt)))
}

/// What encoding a database to a document returns.
pub open spec fn spec_save_doc(es: Seq<EntryV>, fmt: Format) -> Result<JsonV, ErrorV> {
    match spec_validate(es) {
        Err(e) => Err(e),
        Ok(u) => Ok(spec_encode_db(es, fmt)),
    }
}

/// What encoding a database to text returns.
pub open spec fn spec_save(es: Seq<EntryV>, fmt: Format) -> Result<Seq<char>, ErrorV> {
    match spec_validate(es) {
        Err(e) => Err(e),
        Ok(u) => Ok(print_json(spec_encode_db(es, fmt), Seq::empty())),
    }
}


/// The view of a result of entries.
pub open spec fn entries_view(r: Result<Entries, Error>) -> Result<Seq<EntryV>, ErrorV> {
    match r {
        Ok(es) => Ok(es.deep_view()),
        Err(e) => Err(e.deep_view()),
    }
}

/// How often a key appears among the members of an entry object.
fn count_key(members: &Vec<(String, Json)>, k: &String) -> (n: usize)
    ensures
        n as nat == key_count(jview_members(members@), k@),
{
    let ghost msv = jview_members(members@);
    proof {
        lemma_jview_members(members@);
        assert(msv.skip(0) =~= msv);
    }
    let len = members.len();
    let mut n: usize = 0;
    let mut i: usize = 0;
    while i < len
        invariant
            i <= len,
            n <= i,
            len == members@.len(),
            msv == jview_members(members@),
            msv.len() == len,
            key_count(msv, k@) == n + key_count(msv.skip(i as int), k@),
        decreases len - i,
    {
        proof {
            lemma_jview_members(members@);
            assert(msv.skip(i as int).first() == msv[i as int]);
            assert(msv[i as int].0 == members@[i as int].0@);
            assert(msv.skip(i as int).drop_first() =~= msv.skip(i + 1 as int));
        }
        let pair = &members[i];
        if pair.0 == *k {
            n = n + 1;
        }
        i = i + 1;
    }
    proof {
        assert(msv.skip(len as int) =~= Seq::<(Seq<char>, JsonV)>::empty());
    }
    n
}

/// The value under the first occurrence of a key.
fn find_key<'a>(members: &'a Vec<(String, Json)>, k: &String) -> (r: Option<&'a Json>)
    ensures
        match r {
            Some(v) => key_find(jview_members(members@), k@) == Some(jview(*v)),
            None => key_find(jview_members(members@), k@) is None,
        },
{
    let ghost msv = jview_members(members@);
    proof {
        lemma_jview_members(members@);
        assert(msv.skip(0) =~= msv);
    }
    let len = members.len();
    let mut i: usize = 0;
    while i < len
        invariant
            i <= len,
            len == members@.len(),
            msv == jview_members(members@),
            msv.len() == len,
            key_find(msv, k@) == key_find(msv.skip(i as int), k@),
        decreases len - i,
    {
        proof {
            lemma_jview_members(members@);
            assert(msv.skip(i as int).first() == msv[i as int]);
            assert(msv[i as int] == (members@[i as int].0@, jview(members@[i as int].1)));
            assert(msv.skip(i as int).drop_first() =~= msv.skip(i + 1 as int));
        }
        let pair = &members[i];
        if pair.0 == *k {
            return Some(&members[i].1);
        }
        i = i + 1;
    }
    proof {
        assert(msv.skip(len as int) =~= Seq::<(Seq<char>, JsonV)>::empty());
    }
    None
}

/// Decodes one entry object into the canonical model, or into the first
/// fault found.
#[verifier::loop_isolation(false)]
#[verifier::rlimit(100)]
fn decode_entry(members: &Vec<(String, Json)>) -> (r: Result<Entry, Fault>)
    ensures
        match r {
            Ok(e) => spec_decode_entry(jview_members(members@)) == Ok::<EntryV, FaultV>(
                e.deep_view(),
            ),
            Err(f) => spec_decode_entry(jview_members(members@)) == Err::<EntryV, FaultV>(
                f.deep_view(),
            ),
        },
{
    let ghost msv = jview_members(members@);
    let dk: String = "directory".to_owned();
    let fk: String = "file".to_owned();
    let ck: String = "command".to_owned();
    let ak: String = "arguments".to_owned();
    let ok: String = "output".to_owned();
    proof {
        reveal_strlit("directory");
        reveal_strlit("file");
        reveal_strlit("command");
        reveal_strlit("arguments");
        reveal_strlit("output");
        assert(dk@ =~= dir_key());
        assert(fk@ =~= file_key());
        assert(ck@ =~= cmd_key());
        assert(ak@ =~= args_key());
        assert(ok@ =~= out_key());
    }
    if count_key(members, &dk) > 1 {
        return Err(Fault::DuplicateField(dk));
    }
    if count_key(members, &fk) > 1 {
        return Err(Fault::DuplicateField(fk));
    }
    if count_key(members, &ck) > 1 {
        return Err(Fault::DuplicateField(ck));
    }
    if count_key(members, &ak) > 1 {
        return Err(Fault::DuplicateField(ak));
    }
    if count_key(members, &ok) > 1 {
        return Err(Fault::DuplicateField(ok));
    }
    let directory: String = match find_key(members, &dk) {
        None => {
            return Err(Fault::MissingField(dk));
        },
        Some(v) => match v {
            Json::Str(d) => d.clone(),
            _ => {
                return Err(Fault::WrongFieldType(dk));
            },
        },
    };
    let file: String = match find_key(members, &fk) {
        None => {
            return Err(Fault::MissingField(fk));
        },
        Some(v) => match v {
            Json::Str(f) => f.clone(),
            _ => {
                return Err(Fault::WrongFieldType(fk));
            },
        },
    };
    let cv = find_key(members, &ck);
    let av = find_key(members, &ak);
    let command: Option<&String> = match cv {
        Some(v) => match v {
            Json::Str(c) => Some(c),
            _ => {
                return Err(Fault::WrongFieldType(ck));
            },
        },
        None => None,
    };
    let args: Option<Vec<String>> = match av {
        Some(v) => match v {
            Json::Arr(items) => {
                let ghost itemsv = jview_seq(items@);
                proof {
                    lemma_jview_seq(items@);
                }
                let n = items.len();
                let mut ws: Vec<String> = Vec::new();
                let mut i: usize = 0;
                while i < n
                    invariant
                        i <= n,
                        n == items@.len(),
                        itemsv == jview_seq(items@),
                        itemsv.len() == n,
                        ws@.len() == i,
                        forall|t: int|
                            0 <= t < i ==> itemsv[t] is Str && ws@[t]@ == itemsv[t]->Str_0,
                    decreases n - i,
                {
                    proof {
                        lemma_jview_seq(items@);
                        assert(itemsv[i as int] == jview(items@[i as int]));
                    }
                    match &items[i] {
                        Json::Str(t) => {
                            ws.push(t.clone());
                        },
                        _ => {
                            proof {
                                assert(!is_str_arr(JsonV::Arr(itemsv)));
                            }
                            return Err(Fault::WrongFieldType(ak));
                        },
                    }
                    i = i + 1;
                }
                proof {
                    assert(is_str_arr(JsonV::Arr(itemsv)));
                    assert(ws.deep_view() =~= strs_of(itemsv));
                }
                Some(ws)
            },
            _ => {
                return Err(Fault::WrongFieldType(ak));
            },
        },
        None => None,
    };
    let ov = find_key(members, &ok);
    let output: Option<String> = match ov {
        Some(v) => match v {
            Json::Str(o) => Some(o.clone()),
            _ => {
                return Err(Fault::WrongFieldType(ok));
            },
        },
        None => None,
    };
    let arguments: Vec<String> = match args {
        Some(ws) => ws,
        None => match command {
            Some(c) => match shell::split(c.as_str()) {
                Ok(ws) => ws,
                Err(u) => {
                    return Err(Fault::BadQuoting(c.clone()));
                },
            },
            None => {
                return Err(Fault::NoCommand);
            },
        },
    };
    if arguments.len() == 0 {
        return Err(Fault::EmptyArguments);
    }
    let e = Entry { directory, file, arguments, output };
    proof {
        assert(spec_decode_entry(msv) == Ok::<EntryV, FaultV>(e.deep_view()));
    }
    Ok(e)
}

/// Joins the result of decoding the remaining elements onto what the
/// entries and faults decoded so far demand.
pub open spec fn combine_decode(
    es0: Seq<EntryV>,
    fs0: Seq<EntryFaultV>,
    r: Result<Seq<EntryV>, ErrorV>,
) -> Result<Seq<EntryV>, ErrorV> {
    match r {
        Ok(es) => if fs0.len() == 0 {
            Ok(es0 + es)
        } else {
            Err(ErrorV::Semantic(fs0))
        },
        Err(ErrorV::Semantic(fs)) => Err(ErrorV::Semantic(fs0 + fs)),
        Err(x) => Err(x),
    }
}

/// Decodes a parsed document into the entry model, aggregating the faults
/// of all offending entries; the top-level value must be an array of
/// objects.
#[verifier::loop_isolation(false)]
pub fn load(doc: &Json) -> (r: Result<Entries, Error>)
    ensures
        entries_view(r) == spec_load(jview(*doc)),
{
    let elems: &Vec<Json> = match doc {
        Json::Arr(elems) => elems,
        _ => {
            return Err(Error::SyntaxError(SyntaxFault::TopLevelNotArray));
        },
    };
    let ghost ev = jview_seq(elems@);
    proof {
        lemma_jview_seq(elems@);
        assert(ev.skip(0) =~= ev);
    }
    let n = elems.len();
    let mut entries: Vec<Entry> = Vec::new();
    let mut faults: Vec<EntryFault> = Vec::new();
    let mut i: usize = 0;
    proof {
        assert(entries.deep_view() =~= Seq::<EntryV>::empty());
        assert(faults.deep_view() =~= Seq::<EntryFaultV>::empty());
    }
    while i < n
        invariant
            i <= n,
            n == elems@.len(),
            ev == jview_seq(elems@),
            ev.len() == n,
            combine_decode(
                entries.deep_view(),
                faults.deep_view(),
                spec_decode_entries(ev.skip(i as int), i as int),
            ) == spec_decode_entries(ev, 0),
        decreases n - i,
    {
        proof {
            lemma_jview_seq(elems@);
            assert(ev.skip(i as int).first() == ev[i as int]);
            assert(ev[i as int] == jview(elems@[i as int]));
            assert(ev.skip(i as int).drop_first() =~= ev.skip(i + 1 as int));
        }
        let ghost es0 = entries.deep_view();
        let ghost fs0 = faults.deep_view();
        match &elems[i] {
            Json::Obj(ms) => {
                match decode_entry(ms) {
                    Ok(e) => {
                        let ghost edv = e.deep_view();
                        entries.push(e);
                        proof {
                            assert(entries.deep_view() =~= es0.push(edv));
                            match spec_decode_entries(ev.skip(i + 1 as int), i + 1) {
                                Ok(es) => {
                                    assert(es0 + (seq![edv] + es) =~= es0.push(edv) + es);
                                },
                                Err(x) => {},
                            }
                        }
                    },
                    Err(f) => {
                        let ghost fdv = f.deep_view();
                        let ef = EntryFault { index: i, fault: f };
                        proof {
                            assert(ef.deep_view() == EntryFaultV { index: i as int, fault: fdv });
                        }
                        faults.push(ef);
                        proof {
                            let efv = EntryFaultV { index: i as int, fault: fdv };
                            assert(faults.deep_view() =~= fs0.push(efv));
                            match spec_decode_entries(ev.skip(i + 1 as int), i + 1) {
                                Ok(es) => {
                                    assert(fs0 + seq![efv] =~= fs0.push(efv));
                                },
                                Err(ErrorV::Semantic(fs)) => {
                                    assert(fs0 + (seq![efv] + fs) =~= fs0.push(efv) + fs);
                                },
                                Err(x) => {},
                            }
                        }
                    },
                }
            },
            _ => {
                proof {
                    let serr = ErrorV::Syntax(SyntaxFault::ElementNotObject(i));
                    assert(spec_decode_entries(ev.skip(i as int), i as int) == Err::<
                        Seq<EntryV>,
                        ErrorV,
                    >(serr));
                    assert(combine_decode(
                        entries.deep_view(),
                        faults.deep_view(),
                        spec_decode_entries(ev.skip(i as int), i as int),
                    ) == Err::<Seq<EntryV>, ErrorV>(serr));
                    assert(spec_decode_entries(ev, 0) == Err::<Seq<EntryV>, ErrorV>(serr));
                    assert(Error::SyntaxError(SyntaxFault::ElementNotObject(i)).deep_view()
                        == serr);
                }
                return Err(Error::SyntaxError(SyntaxFault::ElementNotObject(i)));
            },
        }
        i = i + 1;
    }
    proof {
        assert(ev.skip(n as int) =~= Seq::<JsonV>::empty());
        assert(entries.deep_view() + Seq::<EntryV>::empty() =~= entries.deep_view());
    }
    if faults.len() == 0 {
        Ok(entries)
    } else {
        Err(Error::SemanticError(faults))
    }
}

/// Checks every entry: an entry with an empty argument list is invalid;
/// the faults of all invalid entries are aggregated.
pub fn validate(entries: &Entries) -> (r: Result<(), Error>)
    ensures
        match r {
            Ok(u) => spec_validate(entries.deep_view()) == Ok::<(), ErrorV>(()),
            Err(e) => spec_validate(entries.deep_view()) == Err::<(), ErrorV>(e.deep_view()),
        },
{
    let ghost dv = entries.deep_view();
    proof {
        assert(dv.skip(0) =~= dv);
    }
    let n = entries.len();
    let mut faults: Vec<EntryFault> = Vec::new();
    let mut i: usize = 0;
    proof {
        assert(faults.deep_view() =~= Seq::<EntryFaultV>::empty());
        assert(Seq::<EntryFaultV>::empty() + spec_validate_faults(dv, 0) =~= spec_validate_faults(
            dv,
            0,
        ));
    }
    while i < n
        invariant
            i <= n,
            n == entries@.len(),
            dv == entries.deep_view(),
            dv.len() == n,
            spec_validate_faults(dv, 0) == faults.deep_view() + spec_validate_faults(
                dv.skip(i as int),
                i as int,
            ),
        decreases n - i,
    {
        proof {
            assert(dv.skip(i as int).first() == dv[i as int]);
            assert(dv[i as int] == entries@[i as int].deep_view());
            assert(dv.skip(i as int).drop_first() =~= dv.skip(i + 1 as int));
        }
        let ghost fs0 = faults.deep_view();
        if entries[i].arguments.len() == 0 {
            let ef = EntryFault { index: i, fault: Fault::EmptyArguments };
            faults.push(ef);
            proof {
                let efv = EntryFaultV { index: i as int, fault: FaultV::EmptyArguments };
                assert(faults.deep_view() =~= fs0.push(efv));
                assert(fs0 + (seq![efv] + spec_validate_faults(dv.skip(i + 1 as int), i + 1))
                    =~= fs0.push(efv) + spec_validate_faults(dv.skip(i + 1 as int), i + 1));
            }
        } else {
            proof {
                assert(Seq::<EntryFaultV>::empty() + spec_validate_faults(
                    dv.skip(i + 1 as int),
                    i + 1,
                ) =~= spec_validate_faults(dv.skip(i + 1 as int), i + 1));
            }
        }
        i = i + 1;
    }
    proof {
        assert(dv.skip(n as int) =~= Seq::<EntryV>::empty());
        assert(faults.deep_view() + Seq::<EntryFaultV>::empty() =~= faults.deep_view());
    }
    if faults.len() == 0 {
        Ok(())
    } else {
        Err(Error::SemanticError(faults))
    }
}

/// Builds the JSON object written for one entry.
fn encode_entry(e: &Entry, format: &Format) -> (j: Json)
    ensures
        jview(j) == spec_encode_entry(e.deep_view(), *format),
{
    let mut ms: Vec<(String, Json)> = Vec::new();
    proof {
        reveal_strlit("directory");
        reveal_strlit("file");
        reveal_strlit("command");
        reveal_strlit("arguments");
        reveal_strlit("output");
    }
    ms.push(("directory".to_owned(), Json::Str(e.directory.clone())));
    ms.push(("file".to_owned(), Json::Str(e.file.clone())));
    if format.command_as_array {
        let n = e.arguments.len();
        let mut items: Vec<Json> = Vec::new();
        let mut i: usize = 0;
        while i < n
            invariant
                i <= n,
                n == e.arguments@.len(),
                items@.len() == i,
                forall|t: int|
                    0 <= t < i ==> items@[t] is Str && items@[t]->Str_0@ == e.arguments@[t]@,
            decreases n - i,
        {
            items.push(Json::Str(e.arguments[i].clone()));
            i = i + 1;
        }
        proof {
            lemma_jview_seq(items@);
            assert(jview_seq(items@) =~= Seq::new(
                e.deep_view().arguments.len(),
                |t: int| JsonV::Str(e.deep_view().arguments[t]),
            ));
        }
        ms.push(("arguments".to_owned(), Json::Arr(items)));
    } else {
        let cmd = shell::join(&e.arguments);
        ms.push(("command".to_owned(), Json::Str(cmd)));
    }
    match &e.output {
        Some(o) => {
            if !format.drop_output_field {
                ms.push(("output".to_owned(), Json::Str(o.clone())));
            }
        },
        None => {},
    }
    let j = Json::Obj(ms);
    proof {
        lemma_jview_members(j->Obj_0@);
        assert(jview(j) == JsonV::Obj(jview_members(j->Obj_0@)));
        assert(jview_members(j->Obj_0@) =~~= spec_encode_entry(e.deep_view(), *format)->Obj_0);
    }
    j
}

/// Encodes a database into the JSON document the format asks for, after
/// validating it.
pub fn save(entries: &Entries, format: &Format) -> (r: Result<Json, Error>)
    ensures
        match r {
            Ok(j) => spec_save_doc(entries.deep_view(), *format) == Ok::<JsonV, ErrorV>(jview(j)),
            Err(e) => spec_save_doc(entries.deep_view(), *format) == Err::<JsonV, ErrorV>(
                e.deep_view(),
            ),
        },
{
    match validate(entries) {
        Err(e) => {
            return Err(e);
        },
        Ok(u) => {},
    }
    let ghost dv = entries.deep_view();
    let n = entries.len();
    let mut objs: Vec<Json> = Vec::new();
    let mut i: usize = 0;
    while i < n
        invariant
            i <= n,
            n == entries@.len(),
            dv == entries.deep_view(),
            dv.len() == n,
            objs@.len() == i,
            forall|t: int|
                0 <= t < i ==> jview_seq(objs@)[t] == spec_encode_entry(dv[t], *format),
        decreases n - i,
    {
        let ghost objs0 = objs@;
        let o = encode_entry(&entries[i], format);
        objs.push(o);
        proof {
            lemma_jview_seq(objs@);
            lemma_jview_seq(objs0);
            assert(dv[i as int] == entries@[i as int].deep_view());
            assert forall|t: int| 0 <= t < i + 1 implies jview_seq(objs@)[t] == spec_encode_entry(
                dv[t],
                *format,
            ) by {
                if t < i {
                    assert(jview_seq(objs@)[t] == jview(objs@[t]));
                    assert(jview_seq(objs0)[t] == jview(objs0[t]));
                }
            }
        }
        i = i + 1;
    }
    let j = Json::Arr(objs);
    proof {
        lemma_jview_seq(j->Arr_0@);
        assert(jview(j) == JsonV::Arr(jview_seq(j->Arr_0@)));
        assert(jview_seq(j->Arr_0@) =~~= spec_encode_db(dv, *format)->Arr_0);
        assert(jview(j) == spec_encode_db(dv, *format));
    }
    Ok(j)
}

/// Decodes a whole database text: parses the JSON, decodes every entry,
/// and validates the result, classifying failures as syntax or semantic
/// errors.
pub fn load_from_reader(input: &str) -> (r: Result<Entries, Error>)
    ensures
        entries_view(r) == spec_load_text(input@),
{
    match from_text(input) {
        None => Err(Error::SyntaxError(SyntaxFault::Malformed)),
        Some(j) => load(&j),
    }
}

/// Encodes a database to its pretty-printed text in the shape the format
/// asks for, after validating it.
pub fn save_into_writer(entries: &Entries, format: &Format) -> (r: Result<String, Error>)
    ensures
        match r {
            Ok(text) => spec_save(entries.deep_view(), *format) == Ok::<Seq<char>, ErrorV>(text@),
            Err(e) => spec_save(entries.deep_view(), *format) == Err::<Seq<char>, ErrorV>(
                e.deep_view(),
            ),
        },
{
    match save(entries, format) {
        Err(e) => Err(e),
        Ok(j) => Ok(to_text(&j)),
    }
}


// ------------------------------------------------------------------
// The laws of the codec.
// ------------------------------------------------------------------
/// An entry as it comes back after a round trip: `output` survives unless
/// the format drops it.
pub open spec fn strip_entry(e: EntryV, fmt: Format) -> EntryV {
    EntryV {
        directory: e.directory,
        file: e.file,
        arguments: e.arguments,
        output: if fmt.drop_output_field {
            None
        } else {
            e.output
        },
    }
}

/// A whole database after a round trip.
pub open spec fn strip_entries(es: Seq<EntryV>, fmt: Format) -> Seq<EntryV> {
    Seq::new(es.len(), |i: int| strip_entry(es[i], fmt))
}

/// Every entry carries at least one argument.
pub open spec fn all_valid(es: Seq<EntryV>) -> bool {
    forall|i: int| 0 <= i < es.len() ==> entry_valid(es[i])
}

/// A key that never appears is never found.
proof fn lemma_count0_find_none(ms: Seq<(Seq<char>, JsonV)>, k: Seq<char>)
    requires
        key_count(ms, k) == 0,
    ensures
        key_find(ms, k) is None,
    decreases ms.len(),
{
    if ms.len() > 0 {
        lemma_count0_find_none(ms.drop_first(), k);
    }
}

/// The five known keys are pairwise distinct.
proof fn lemma_keys_distinct()
    ensures
        dir_key() != file_key(),
        dir_key() != cmd_key(),
        dir_key() != args_key(),
        dir_key() != out_key(),
        file_key() != cmd_key(),
        file_key() != args_key(),
        file_key() != out_key(),
        cmd_key() != args_key(),
        cmd_key() != out_key(),
        args_key() != out_key(),
{
    assert(dir_key()[0] == 'd' && args_key()[0] == 'a');
    assert(cmd_key()[0] == 'c');
    assert(out_key()[0] == 'o');
    assert(file_key()[0] == 'f');
    assert(dir_key().len() == 9 && file_key().len() == 4 && cmd_key().len() == 7 && args_key().len()
        == 9 && out_key().len() == 6);
}

/// Key lookup over the member list the encoder writes, with three members.
proof fn lemma_keys_three(m0: (Seq<char>, JsonV), m1: (Seq<char>, JsonV), m2: (Seq<char>, JsonV), k: Seq<char>)
    ensures
        key_count(seq![m0, m1, m2], k) == (if m0.0 == k { 1int } else { 0 }) + (if m1.0 == k {
            1int
        } else {
            0
        }) + (if m2.0 == k {
            1int
        } else {
            0
        }),
        key_find(seq![m0, m1, m2], k) == (if m0.0 == k {
            Some(m0.1)
        } else if m1.0 == k {
            Some(m1.1)
        } else if m2.0 == k {
            Some(m2.1)
        } else {
            None
        }),
{
    let ms = seq![m0, m1, m2];
    assert(ms.first() == m0);
    assert(ms.drop_first() =~= seq![m1, m2]);
    assert(seq![m1, m2].first() == m1);
    assert(seq![m1, m2].drop_first() =~= seq![m2]);
    assert(seq![m2].first() == m2);
    assert(seq![m2].drop_first() =~= Seq::<(Seq<char>, JsonV)>::empty());
    assert(key_count(Seq::<(Seq<char>, JsonV)>::empty(), k) == 0);
    assert(key_find(Seq::<(Seq<char>, JsonV)>::empty(), k) is None);
    assert(key_count(seq![m2], k) == (if m2.0 == k {
        1int
    } else {
        0
    }));
    assert(key_count(seq![m1, m2], k) == (if m1.0 == k {
        1int
    } else {
        0
    }) + (if m2.0 == k {
        1int
    } else {
        0
    }));
    assert(key_find(seq![m2], k) == (if m2.0 == k {
        Some(m2.1)
    } else {
        None
    }));
    assert(key_find(seq![m1, m2], k) == (if m1.0 == k {
        Some(m1.1)
    } else if m2.0 == k {
        Some(m2.1)
    } else {
        None
    }));
}

/// Key lookup over the member list the encoder writes, with four members.
proof fn lemma_keys_four(
    m0: (Seq<char>, JsonV),
    m1: (Seq<char>, JsonV),
    m2: (Seq<char>, JsonV),
    m3: (Seq<char>, JsonV),
    k: Seq<char>,
)
    ensures
        key_count(seq![m0, m1, m2, m3], k) == (if m0.0 == k { 1int } else { 0 }) + (if m1.0 == k {
            1int
        } else {
            0
        }) + (if m2.0 == k {
            1int
        } else {
            0
        }) + (if m3.0 == k {
            1int
        } else {
            0
        }),
        key_find(seq![m0, m1, m2, m3], k) == (if m0.0 == k {
            Some(m0.1)
        } else if m1.0 == k {
            Some(m1.1)
        } else if m2.0 == k {
            Some(m2.1)
        } else if m3.0 == k {
            Some(m3.1)
        } else {
            None
        }),
{
    let ms = seq![m0, m1, m2, m3];
    assert(ms.first() == m0);
    assert(ms.drop_first() =~= seq![m1, m2, m3]);
    lemma_keys_three(m1, m2, m3, k);
}

/// Decoding what the encoder wrote for a valid entry gives the entry
/// back, with `output` gone exactly when the format dropped it.
#[verifier::rlimit(100)]
#[verifier::spinoff_prover]
pub proof fn lemma_decode_encode_entry(e: EntryV, fmt: Format)
    requires
        entry_valid(e),
    ensures
        spec_decode_entry(spec_encode_entry(e, fmt)->Obj_0) == Ok::<EntryV, FaultV>(
            strip_entry(e, fmt),
        ),
{
    lemma_keys_distinct();
    let m0 = (dir_key(), JsonV::Str(e.directory));
    let m1 = (file_key(), JsonV::Str(e.file));
    let m2 = if fmt.command_as_array {
        (args_key(), JsonV::Arr(Seq::new(e.arguments.len(), |i: int| JsonV::Str(e.arguments[i]))))
    } else {
        (cmd_key(), JsonV::Str(shell::spec_join(e.arguments)))
    };
    let ms = spec_encode_entry(e, fmt)->Obj_0;
    let has_out = e.output is Some && !fmt.drop_output_field;
    if has_out {
        let m3 = (out_key(), JsonV::Str(e.output->0));
        assert(ms =~= seq![m0, m1, m2, m3]);
        lemma_keys_four(m0, m1, m2, m3, dir_key());
        lemma_keys_four(m0, m1, m2, m3, file_key());
        lemma_keys_four(m0, m1, m2, m3, cmd_key());
        lemma_keys_four(m0, m1, m2, m3, args_key());
        lemma_keys_four(m0, m1, m2, m3, out_key());
    } else {
        assert(ms =~= seq![m0, m1, m2]);
        lemma_keys_three(m0, m1, m2, dir_key());
        lemma_keys_three(m0, m1, m2, file_key());
        lemma_keys_three(m0, m1, m2, cmd_key());
        lemma_keys_three(m0, m1, m2, args_key());
        lemma_keys_three(m0, m1, m2, out_key());
    }
    if fmt.command_as_array {
        let items = Seq::new(e.arguments.len(), |i: int| JsonV::Str(e.arguments[i]));
        assert(is_str_arr(JsonV::Arr(items)));
        assert(strs_of(items) =~= e.arguments);
    } else {
        shell::lemma_split_join(e.arguments);
        assert(shell::spec_split(shell::spec_join(e.arguments)) == Some(e.arguments));
    }
    assert(spec_decode_entry(ms) == Ok::<EntryV, FaultV>(strip_entry(e, fmt)));
}


/// A database of valid entries passes validation.
proof fn lemma_validate_ok(es: Seq<EntryV>, base: int)
    requires
        all_valid(es),
    ensures
        spec_validate_faults(es, base).len() == 0,
    decreases es.len(),
{
    if es.len() > 0 {
        assert(entry_valid(es[0]));
        assert(all_valid(es.drop_first())) by {
            assert(forall|i: int|
                0 <= i < es.drop_first().len() ==> es.drop_first()[i] == es[i + 1]);
        }
        lemma_validate_ok(es.drop_first(), base + 1);
    }
}

/// A sequence of well-formed values is well-formed.
proof fn lemma_wf_seq_of(items: Seq<JsonV>)
    requires
        forall|i: int| 0 <= i < items.len() ==> wf_json(#[trigger] items[i]),
    ensures
        wf_seq(items),
    decreases items.len(),
{
    if items.len() > 0 {
        assert(wf_json(items[0]));
        assert(forall|i: int|
            0 <= i < items.drop_first().len() ==> #[trigger] items.drop_first()[i] == items[i + 1]);
        lemma_wf_seq_of(items.drop_first());
    }
}

/// A member list of well-formed values is well-formed.
proof fn lemma_wf_members_of(members: Seq<(Seq<char>, JsonV)>)
    requires
        forall|i: int| 0 <= i < members.len() ==> wf_json(#[trigger] members[i].1),
    ensures
        wf_members(members),
    decreases members.len(),
{
    if members.len() > 0 {
        assert(wf_json(members[0].1));
        assert(forall|i: int|
            0 <= i < members.drop_first().len() ==> #[trigger] members.drop_first()[i] == members[i
                + 1]);
        lemma_wf_members_of(members.drop_first());
    }
}

/// What the encoder writes for an entry is well-formed.
proof fn lemma_encode_entry_wf(e: EntryV, fmt: Format)
    ensures
        wf_json(spec_encode_entry(e, fmt)),
{
    let ms = spec_encode_entry(e, fmt)->Obj_0;
    assert forall|i: int| 0 <= i < ms.len() implies wf_json(#[trigger] ms[i].1) by {
        if fmt.command_as_array && i == 2 {
            let items = Seq::new(e.arguments.len(), |t: int| JsonV::Str(e.arguments[t]));
            assert(ms[2].1 == JsonV::Arr(items));
            lemma_wf_seq_of(items);
        }
    }
    lemma_wf_members_of(ms);
}

/// What the encoder writes for a database is well-formed.
proof fn lemma_encode_db_wf(es: Seq<EntryV>, fmt: Format)
    ensures
        wf_json(spec_encode_db(es, fmt)),
{
    let elems = spec_encode_db(es, fmt)->Arr_0;
    assert forall|i: int| 0 <= i < elems.len() implies wf_json(#[trigger] elems[i]) by {
        lemma_encode_entry_wf(es[i], fmt);
    }
    lemma_wf_seq_of(elems);
}

/// Decoding the encoded form of a valid database gives the database back,
/// entry by entry.
proof fn lemma_decode_encoded(es: Seq<EntryV>, fmt: Format, base: int)
    requires
        all_valid(es),
    ensures
        spec_decode_entries(Seq::new(es.len(), |i: int| spec_encode_entry(es[i], fmt)), base)
            == Ok::<Seq<EntryV>, ErrorV>(Seq::new(es.len(), |i: int| strip_entry(es[i], fmt))),
    decreases es.len(),
{
    let elems = Seq::new(es.len(), |i: int| spec_encode_entry(es[i], fmt));
    let out = Seq::new(es.len(), |i: int| strip_entry(es[i], fmt));
    if es.len() == 0 {
        assert(elems.len() == 0);
        assert(out =~= Seq::<EntryV>::empty());
    } else {
        assert(elems.first() == spec_encode_entry(es[0], fmt));
        assert(entry_valid(es[0]));
        lemma_decode_encode_entry(es[0], fmt);
        let es1 = es.drop_first();
        assert(all_valid(es1)) by {
            assert(forall|i: int| 0 <= i < es1.len() ==> es1[i] == es[i + 1]);
        }
        lemma_decode_encoded(es1, fmt, base + 1);
        assert(elems.drop_first() =~= Seq::new(es1.len(), |i: int| spec_encode_entry(es1[i], fmt)))
            by {
            assert(forall|i: int| 0 <= i < es1.len() ==> es1[i] == es[i + 1]);
        }
        let rest_out = Seq::new(es1.len(), |i: int| strip_entry(es1[i], fmt));
        assert(spec_decode_entries(elems.drop_first(), base + 1) == Ok::<Seq<EntryV>, ErrorV>(
            rest_out,
        ));
        assert(seq![strip_entry(es[0], fmt)] + rest_out =~= out) by {
            assert(forall|i: int| 0 <= i < es1.len() ==> es1[i] == es[i + 1]);
        }
    }
}

/// The round-trip law: saving a database of valid entries succeeds, and
/// loading the produced text gives the same entries back, with `output`
/// gone exactly when the format dropped it.
pub proof fn lemma_round_trip(es: Seq<EntryV>, fmt: Format)
    requires
        all_valid(es),
    ensures
        spec_save(es, fmt) is Ok,
        spec_load_text(spec_save(es, fmt)->Ok_0) == Ok::<Seq<EntryV>, ErrorV>(
            strip_entries(es, fmt),
        ),
{
    lemma_validate_ok(es, 0);
    assert(spec_validate(es) == Ok::<(), ErrorV>(()));
    let doc = spec_encode_db(es, fmt);
    let text = print_json(doc, Seq::empty());
    assert(spec_save(es, fmt) == Ok::<Seq<char>, ErrorV>(text));
    lemma_encode_db_wf(es, fmt);
    lemma_parse_print(doc);
    assert(spec_parse(text) == Some(doc));
    lemma_decode_encoded(es, fmt, 0);
    assert(spec_load(doc) == Ok::<Seq<EntryV>, ErrorV>(strip_entries(es, fmt)));
}

/// The shape-agreement law: for one entry, the `arguments` rendering and
/// the `command` rendering decode to the same thing.
pub proof fn lemma_shape_agreement(e: EntryV, f1: Format, f2: Format)
    requires
        entry_valid(e),
        f1.drop_output_field == f2.drop_output_field,
    ensures
        spec_decode_entry(spec_encode_entry(e, f1)->Obj_0) == spec_decode_entry(
            spec_encode_entry(e, f2)->Obj_0,
        ),
{
    lemma_decode_encode_entry(e, f1);
    lemma_decode_encode_entry(e, f2);
}

/// The output-omission law: a format that drops `output` never writes the
/// key, whatever the entry holds.
pub proof fn lemma_output_dropped(e: EntryV, fmt: Format)
    requires
        fmt.drop_output_field,
    ensures
        key_count(spec_encode_entry(e, fmt)->Obj_0, out_key()) == 0,
{
    lemma_keys_distinct();
    let ms = spec_encode_entry(e, fmt)->Obj_0;
    let m0 = (dir_key(), JsonV::Str(e.directory));
    let m1 = (file_key(), JsonV::Str(e.file));
    let m2 = if fmt.command_as_array {
        (args_key(), JsonV::Arr(Seq::new(e.arguments.len(), |i: int| JsonV::Str(e.arguments[i]))))
    } else {
        (cmd_key(), JsonV::Str(shell::spec_join(e.arguments)))
    };
    assert(ms =~= seq![m0, m1, m2]);
    lemma_keys_three(m0, m1, m2, out_key());
}

/// The other half of output omission: an object without an `output` key
/// decodes, when it decodes at all, to an entry without an output.
pub proof fn lemma_absent_output_decodes_none(ms: Seq<(Seq<char>, JsonV)>)
    requires
        key_count(ms, out_key()) == 0,
        spec_decode_entry(ms) is Ok,
    ensures
        spec_decode_entry(ms)->Ok_0.output is None,
{
    lemma_count0_find_none(ms, out_key());
}

/// The missing-field law: an object in which `directory` or `file` never
/// appears does not decode; with no duplicate keys either, the fault is
/// exactly the missing field.
pub proof fn lemma_missing_field(ms: Seq<(Seq<char>, JsonV)>)
    requires
        key_count(ms, dir_key()) == 0 || key_count(ms, file_key()) == 0,
    ensures
        spec_decode_entry(ms) is Err,
        key_count(ms, dir_key()) == 0 && key_count(ms, file_key()) <= 1 && key_count(
            ms,
            cmd_key(),
        ) <= 1 && key_count(ms, args_key()) <= 1 && key_count(ms, out_key()) <= 1 ==> spec_decode_entry(
            ms,
        ) == Err::<EntryV, FaultV>(FaultV::MissingField(dir_key())),
{
    if key_count(ms, dir_key()) == 0 {
        lemma_count0_find_none(ms, dir_key());
    } else {
        lemma_count0_find_none(ms, file_key());
    }
}

} // verus!



