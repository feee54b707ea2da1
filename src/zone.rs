use vstd::prelude::*;
use vstd::utf8::encode_utf8;

use crate::data::{labels_fit, pieces, split_bytes, split_dots, Name, QType, DOT};
use crate::db::{zone_path, Db};
use crate::record::Record;
use crate::trie::Key;

verus! {

/// The byte that starts a comment line.
pub const HASH: u8 = 35;

/// The byte that ends a line.
pub const NEWLINE: u8 = 10;

/// Why a zone description could not be read.
#[derive(Copy, Clone, Debug, PartialEq, Eq, Structural)]
pub enum ZoneError {
    /// A record line with fewer than three fields.
    MissingField,
    /// A type field that names no record type.
    UnknownType,
    /// A record type other than A and CNAME.
    UnsupportedType,
    /// An A record whose data is not a dotted quad of decimal octets.
    BadAddress,
    /// A name with a piece between dots longer than 63 bytes.
    LabelTooLong,
}

/// ASCII whitespace: space, tab, line feed, form feed, carriage return.
pub open spec fn is_space(b: u8) -> bool {
    b == 32 || b == 9 || b == 10 || b == 12 || b == 13
}

/// The whitespace-separated fields of a line.
pub open spec fn fields(s: Seq<u8>) -> Seq<Seq<u8>>
    decreases s.len(),
{
    if s.len() == 0 {
        Seq::empty()
    } else {
        let prev = fields(s.drop_last());
        let c = s.last();
        if is_space(c) {
            prev
        } else if s.len() >= 2 && !is_space(s[s.len() - 2]) {
            prev.update(prev.len() - 1, prev.last().push(c))
        } else {
            prev.push(seq![c])
        }
    }
}

pub open spec fn is_digit(b: u8) -> bool {
    48 <= b <= 57
}

/// The value of a string of decimal digits.
pub open spec fn decimal(s: Seq<u8>) -> int
    decreases s.len(),
{
    if s.len() == 0 {
        0
    } else {
        decimal(s.drop_last()) * 10 + (s.last() - 48)
    }
}

/// The octet that `s` writes in decimal: one or more digits, of value at most 255.
pub open spec fn octet(s: Seq<u8>) -> Option<u8> {
    if s.len() > 0 && (forall|i: int| 0 <= i < s.len() ==> is_digit(#[trigger] s[i])) && decimal(s)
        <= 255 {
        Some(decimal(s) as u8)
    } else {
        None
    }
}

/// The four bytes of a dotted-quad address.
pub open spec fn address_of(s: Seq<u8>) -> Option<Seq<u8>> {
    let ps = pieces(s, DOT);
    if ps.len() == 4 && octet(ps[0]) is Some && octet(ps[1]) is Some && octet(ps[2]) is Some
        && octet(ps[3]) is Some {
        Some(seq![octet(ps[0])->Some_0, octet(ps[1])->Some_0, octet(ps[2])->Some_0, octet(ps[3])->Some_0])
    } else {
        None
    }
}

/// Whether a line holds no record: it is blank or a comment.
pub open spec fn is_blank(fs: Seq<Seq<u8>>) -> bool {
    fs.len() == 0 || (fs[0].len() > 0 && fs[0][0] == HASH)
}

/// What is wrong with the record line of fields `fs`, if anything.
pub open spec fn line_error(fs: Seq<Seq<u8>>) -> Option<ZoneError> {
    if fs.len() < 3 {
        Some(ZoneError::MissingField)
    } else if !labels_fit(split_dots(fs[0])) {
        Some(ZoneError::LabelTooLong)
    } else if fs[1] == QType::A.spec_mnemonic() {
        if address_of(fs[2]) is None {
            Some(ZoneError::BadAddress)
        } else {
            None
        }
    } else if fs[1] == QType::CNAME.spec_mnemonic() {
        if !labels_fit(split_dots(fs[2])) {
            Some(ZoneError::LabelTooLong)
        } else {
            None
        }
    } else if exists|t: QType| t.spec_mnemonic() == fs[1] {
        Some(ZoneError::UnsupportedType)
    } else {
        Some(ZoneError::UnknownType)
    }
}

/// Whether `line` is a record line that stores `rec` under the trie path `p`.
pub open spec fn line_holds(line: Seq<u8>, p: Seq<Key<Seq<u8>>>, rec: Record) -> bool {
    let fs = fields(line);
    &&& !is_blank(fs)
    &&& line_error(fs) is None
    &&& zone_path(split_dots(fs[0])) == p
    &&& line_record(fs[1], fs[2], rec)
}

/// Whether `line` is a record line for a name whose trie path is `p`.
pub open spec fn names_path(line: Seq<u8>, p: Seq<Key<Seq<u8>>>) -> bool {
    let fs = fields(line);
    !is_blank(fs) && zone_path(split_dots(fs[0])) == p
}

/// Whether line `i`, among the first `n` lines, is the last of them for the path `p`, and
/// stores `rec` there.
pub open spec fn last_line_holds(
    lines: Seq<Seq<u8>>,
    n: int,
    i: int,
    p: Seq<Key<Seq<u8>>>,
    rec: Record,
) -> bool {
    &&& 0 <= i < n
    &&& line_holds(lines[i], p, rec)
    &&& forall|k: int| i < k < n ==> !names_path(#[trigger] lines[k], p)
}

/// Whether `rec` is the record that a line of type field `ty` and data field `data` holds.
pub open spec fn line_record(ty: Seq<u8>, data: Seq<u8>, rec: Record) -> bool {
    if ty == QType::A.spec_mnemonic() {
        rec matches Record::A { address } && address_of(data) == Some(address@)
    } else {
        rec matches Record::CNAME { name } && name@ == split_dots(data)
    }
}

fn split_fields(s: &[u8]) -> (r: Vec<Vec<u8>>)
    ensures
        r@.map_values(|f: Vec<u8>| f@) == fields(s@),
{
    let mut done: Vec<Vec<u8>> = Vec::new();
    let mut cur: Vec<u8> = Vec::new();
    let mut in_field = false;
    let mut i: usize = 0;
    while i < s.len()
        invariant
            i <= s@.len(),
            in_field == (i > 0 && !is_space(s@[i - 1])),
            fields(s@.subrange(0, i as int)) == if in_field {
                done@.map_values(|f: Vec<u8>| f@).push(cur@)
            } else {
                done@.map_values(|f: Vec<u8>| f@)
            },
        decreases s@.len() - i,
    {
        let c = s[i];
        let ghost pre = s@.subrange(0, i as int + 1);
        assert(pre.drop_last() =~= s@.subrange(0, i as int));
        assert(pre.last() == c);
        if c == 32 || c == 9 || c == 10 || c == 12 || c == 13 {
            if in_field {
                let mut f: Vec<u8> = Vec::new();
                core::mem::swap(&mut cur, &mut f);
                done.push(f);
                in_field = false;
            }
        } else {
            if in_field {
                assert(pre[pre.len() - 2] == s@[i - 1]);
                cur.push(c);
            } else {
                cur = Vec::new();
                cur.push(c);
                in_field = true;
            }
        }
        i = i + 1;
        proof {
            if in_field {
                assert(done@.map_values(|f: Vec<u8>| f@).push(cur@) =~= fields(
                    s@.subrange(0, i as int),
                ));
            } else {
                assert(done@.map_values(|f: Vec<u8>| f@) =~= fields(s@.subrange(0, i as int)));
            }
        }
    }
    assert(s@.subrange(0, i as int) =~= s@);
    if in_field {
        done.push(cur);
    }
    assert(done@.map_values(|f: Vec<u8>| f@) =~= fields(s@));
    done
}

proof fn lemma_decimal_grows(s: Seq<u8>, i: int)
    requires
        0 <= i <= s.len(),
        forall|j: int| 0 <= j < s.len() ==> is_digit(#[trigger] s[j]),
    ensures
        decimal(s) >= decimal(s.subrange(0, i)),
    decreases s.len() - i,
{
    if i < s.len() {
        lemma_decimal_grows(s, i + 1);
        let p = s.subrange(0, i + 1);
        assert(p.drop_last() =~= s.subrange(0, i));
        assert(is_digit(p.last()));
        assert(decimal(p) >= 0) by {
            lemma_decimal_nonneg(p);
        }
        lemma_decimal_nonneg(s.subrange(0, i));
    } else {
        assert(s.subrange(0, i) =~= s);
    }
}

proof fn lemma_decimal_nonneg(s: Seq<u8>)
    requires
        forall|j: int| 0 <= j < s.len() ==> is_digit(#[trigger] s[j]),
    ensures
        decimal(s) >= 0,
    decreases s.len(),
{
    if s.len() > 0 {
        assert(is_digit(s.last()));
        lemma_decimal_nonneg(s.drop_last());
    }
}

fn parse_octet(s: &[u8]) -> (r: Option<u8>)
    ensures
        r == octet(s@),
{
    if s.len() == 0 {
        return None;
    }
    let mut v: u32 = 0;
    let mut i: usize = 0;
    while i < s.len()
        invariant
            i <= s@.len(),
            v <= 255,
            v == decimal(s@.subrange(0, i as int)),
            forall|j: int| 0 <= j < i ==> is_digit(#[trigger] s@[j]),
        decreases s@.len() - i,
    {
        let b = s[i];
        if b < 48 || b > 57 {
            return None;
        }
        let ghost p = s@.subrange(0, i as int + 1);
        assert(p.drop_last() =~= s@.subrange(0, i as int));
        v = v * 10 + (b - 48) as u32;
        i = i + 1;
        if v > 255 {
            proof {
                if forall|j: int| 0 <= j < s@.len() ==> is_digit(#[trigger] s@[j]) {
                    lemma_decimal_grows(s@, i as int);
                }
            }
            return None;
        }
    }
    assert(s@.subrange(0, i as int) =~= s@);
    Some(v as u8)
}

fn address_bytes(s: &[u8]) -> (r: Option<[u8; 4]>)
    ensures
        match r {
            Some(a) => address_of(s@) == Some(a@),
            None => address_of(s@) is None,
        },
{
    let ps = split_bytes(s, DOT);
    let ghost views = ps@.map_values(|p: Vec<u8>| p@);
    if ps.len() != 4 {
        return None;
    }
    assert(views[0] == ps@[0]@ && views[1] == ps@[1]@ && views[2] == ps@[2]@ && views[3] == ps@[3]@);
    let a = match parse_octet(ps[0].as_slice()) {
        Some(x) => x,
        None => return None,
    };
    let b = match parse_octet(ps[1].as_slice()) {
        Some(x) => x,
        None => return None,
    };
    let c = match parse_octet(ps[2].as_slice()) {
        Some(x) => x,
        None => return None,
    };
    let d = match parse_octet(ps[3].as_slice()) {
        Some(x) => x,
        None => return None,
    };
    let r = [a, b, c, d];
    assert(r@ =~= address_of(s@)->Some_0);
    Some(r)
}

/// Reads a dotted-quad IPv4 address.
pub fn parse_ip(ip: &str) -> (r: Result<[u8; 4], ZoneError>)
    ensures
        match r {
            Ok(a) => address_of(encode_utf8(ip@)) == Some(a@),
            Err(e) => address_of(encode_utf8(ip@)) is None && e == ZoneError::BadAddress,
        },
{
    match address_bytes(ip.as_bytes()) {
        Some(a) => Ok(a),
        None => Err(ZoneError::BadAddress),
    }
}

fn parse_fields(fs: &Vec<Vec<u8>>) -> (r: Result<(Name, Record), ZoneError>)
    ensures
        match r {
            Ok((n, rec)) => {
                let v = fs@.map_values(|f: Vec<u8>| f@);
                &&& line_error(v) is None
                &&& n@ == split_dots(v[0])
                &&& line_record(v[1], v[2], rec)
            },
            Err(e) => line_error(fs@.map_values(|f: Vec<u8>| f@)) == Some(e),
        },
{
    let ghost v = fs@.map_values(|f: Vec<u8>| f@);
    if fs.len() < 3 {
        return Err(ZoneError::MissingField);
    }
    assert(v[0] == fs@[0]@ && v[1] == fs@[1]@ && v[2] == fs@[2]@);
    let name = match Name::from_text(fs[0].as_slice()) {
        Some(n) => n,
        None => return Err(ZoneError::LabelTooLong),
    };
    let qtype = match QType::from_mnemonic(fs[1].as_slice()) {
        Some(t) => t,
        None => return Err(ZoneError::UnknownType),
    };
    assert(QType::A.spec_mnemonic() != QType::CNAME.spec_mnemonic());
    match qtype {
        QType::A => match address_bytes(fs[2].as_slice()) {
            Some(address) => Ok((name, Record::A { address })),
            None => Err(ZoneError::BadAddress),
        },
        QType::CNAME => match Name::from_text(fs[2].as_slice()) {
            Some(target) => Ok((name, Record::CNAME { name: target })),
            None => Err(ZoneError::LabelTooLong),
        },
        _ => {
            assert(v[1] != QType::A.spec_mnemonic()) by {
                assert(qtype.spec_mnemonic() != QType::A.spec_mnemonic());
            }
            assert(v[1] != QType::CNAME.spec_mnemonic()) by {
                assert(qtype.spec_mnemonic() != QType::CNAME.spec_mnemonic());
            }
            Err(ZoneError::UnsupportedType)
        },
    }
}

fn parse_line_bytes(line: &[u8]) -> (r: Result<Option<(Name, Record)>, ZoneError>)
    ensures
        match r {
            Ok(None) => is_blank(fields(line@)),
            Ok(Some((n, rec))) => {
                let fs = fields(line@);
                &&& !is_blank(fs)
                &&& line_error(fs) is None
                &&& n@ == split_dots(fs[0])
                &&& line_record(fs[1], fs[2], rec)
            },
            Err(e) => !is_blank(fields(line@)) && line_error(fields(line@)) == Some(e),
        },
{
    let fs = split_fields(line);
    if fs.len() == 0 {
        assert(fields(line@).len() == 0);
        return Ok(None);
    }
    proof {
        assert(fs@[0]@ == fields(line@)[0]);
    }
    if fs[0].len() > 0 && fs[0][0] == HASH {
        assert(fields(line@)[0][0] == HASH);
        return Ok(None);
    }
    match parse_fields(&fs) {
        Ok(entry) => Ok(Some(entry)),
        Err(e) => Err(e),
    }
}

/// Reads one line of a zone description: `None` for a blank or comment line, else the
/// name and record of its three whitespace-separated fields `<name> <TYPE> <data>`;
/// fields after the third are ignored.
pub fn parse_line(line: &str) -> (r: Result<Option<(Name, Record)>, ZoneError>)
    ensures
        match r {
            Ok(None) => is_blank(fields(encode_utf8(line@))),
            Ok(Some((n, rec))) => {
                let fs = fields(encode_utf8(line@));
                &&& !is_blank(fs)
                &&& line_error(fs) is None
                &&& n@ == split_dots(fs[0])
                &&& line_record(fs[1], fs[2], rec)
            },
            Err(e) => !is_blank(fields(encode_utf8(line@))) && line_error(
                fields(encode_utf8(line@)),
            ) == Some(e),
        },
{
    parse_line_bytes(line.as_bytes())
}

/// Reads a whole zone description, one record per line, into a store, as inserting the
/// record lines in order would: a later line for a name replaces an earlier one. The
/// first line in error fails the whole.
pub fn parse_zone(text: &str) -> (r: Result<Db, ZoneError>)
    ensures
        match r {
            Ok(db) => {
                let lines = pieces(encode_utf8(text@), NEWLINE);
                &&& db.wf()
                &&& forall|i: int|
                    0 <= i < lines.len() && !is_blank(fields(#[trigger] lines[i])) ==> {
                        &&& line_error(fields(lines[i])) is None
                        &&& db@.contains_key(zone_path(split_dots(fields(lines[i])[0])))
                    }
                &&& forall|p: Seq<Key<Seq<u8>>>|
                    #[trigger] db@.contains_key(p) ==> exists|i: int|
                        last_line_holds(lines, lines.len() as int, i, p, db@[p])
            },
            Err(e) => {
                let lines = pieces(encode_utf8(text@), NEWLINE);
                exists|i: int|
                    {
                        &&& 0 <= i < lines.len()
                        &&& !is_blank(fields(#[trigger] lines[i]))
                        &&& line_error(fields(lines[i])) == Some(e)
                        &&& forall|j: int|
                            0 <= j < i ==> is_blank(fields(#[trigger] lines[j])) || line_error(
                                fields(lines[j]),
                            ) is None
                    }
            },
        },
{
    let lines = split_bytes(text.as_bytes(), NEWLINE);
    let ghost views = lines@.map_values(|l: Vec<u8>| l@);
    let mut db = Db::new();
    let mut i: usize = 0;
    while i < lines.len()
        invariant
            i <= lines@.len(),
            views == lines@.map_values(|l: Vec<u8>| l@),
            views == pieces(encode_utf8(text@), NEWLINE),
            db.wf(),
            forall|j: int|
                0 <= j < i && !is_blank(fields(#[trigger] views[j])) ==> {
                    &&& line_error(fields(views[j])) is None
                    &&& db@.contains_key(zone_path(split_dots(fields(views[j])[0])))
                },
            forall|p: Seq<Key<Seq<u8>>>|
                #[trigger] db@.contains_key(p) ==> exists|j: int|
                    last_line_holds(views, i as int, j, p, db@[p]),
        decreases lines@.len() - i,
    {
        assert(views[i as int] == lines@[i as int]@);
        match parse_line_bytes(lines[i].as_slice()) {
            Ok(Some((name, record))) => {
                let ghost before = db@;
                let ghost line = views[i as int];
                let ghost path = zone_path(name@);
                assert(line_holds(line, path, record));
                db.insert(&name, record);
                proof {
                    let n1 = i as int + 1;
                    assert forall|p: Seq<Key<Seq<u8>>>| #[trigger] db@.contains_key(p) implies exists|j: int|
                        last_line_holds(views, n1, j, p, db@[p]) by {
                        if p == path {
                            assert(last_line_holds(views, n1, i as int, p, db@[p]));
                        } else {
                            assert(before.contains_key(p));
                            let j = choose|j: int| last_line_holds(views, i as int, j, p, before[p]);
                            assert(!names_path(views[i as int], p));
                            assert(last_line_holds(views, n1, j, p, db@[p]));
                        }
                    }
                }
            },
            Ok(None) => {
                proof {
                    let n1 = i as int + 1;
                    assert forall|p: Seq<Key<Seq<u8>>>| #[trigger] db@.contains_key(p) implies exists|j: int|
                        last_line_holds(views, n1, j, p, db@[p]) by {
                        let j = choose|j: int| last_line_holds(views, i as int, j, p, db@[p]);
                        assert(!names_path(views[i as int], p));
                        assert(last_line_holds(views, n1, j, p, db@[p]));
                    }
                }
            },
            Err(e) => {
                return Err(e);
            },
        }
        i = i + 1;
    }
    Ok(db)
}

} // verus!
