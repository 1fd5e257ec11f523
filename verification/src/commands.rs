//! The command set: request decoding has produced an array of bulk
//! strings; here each command reads or changes server state and yields
//! the exact response bytes.

use vstd::prelude::*;
use crate::ascii::{
    dbfilename_vec, dir_vec, err_bad_expire_vec, err_bad_psync_vec, err_bad_set_suffix_vec,
    err_unknown_command_vec, err_unknown_config_vec, err_unknown_replconf_vec,
    err_wrong_arity_vec, lit_capa, lit_colon, lit_config, lit_dbfilename, lit_dir, lit_echo,
    lit_err_bad_expire, lit_err_bad_psync, lit_err_bad_set_suffix, lit_err_unknown_command,
    lit_err_unknown_config, lit_err_unknown_replconf, lit_err_wrong_arity, lit_ex,
    lit_fullresync_prefix, lit_get, lit_info, lit_keys, lit_listening_port, lit_neg_one, lit_ok,
    lit_ping, lit_pong, lit_psync, lit_px, lit_qmark, lit_replconf, lit_section_hash, lit_set,
    lit_star, ok_vec, pong_vec,
};
use crate::db::{clone_bytes, Expiry, KeyValueData, RdbFile, RedisValue, ValueData, DB_NUM,
    RDB_VERSION};
use crate::num::{dec_digits, push_dec_u64};
use crate::rdb::{rdb_dv, rdb_encode, rdb_len_wf, rdb_write, RdbData};
use crate::resp::{bulk_array_frame, bulks_of, crlf, encode_data, encode_frame, RespData,
    RespValue};
use crate::server::{sections_view, Server};

verus! {

/// Lower-cases one ASCII byte.
pub open spec fn lower(b: u8) -> u8 {
    if 65 <= b <= 90 {
        (b + 32) as u8
    } else {
        b
    }
}

pub open spec fn lower_bytes(s: Seq<u8>) -> Seq<u8> {
    s.map_values(|b: u8| lower(b))
}

/// Lower-cases a byte string.
pub fn to_lower(v: &[u8]) -> (r: Vec<u8>)
    ensures
        r@ == lower_bytes(v@),
{
    let mut out: Vec<u8> = Vec::new();
    let mut i: usize = 0;
    while i < v.len()
        invariant
            i <= v@.len(),
            out@.len() == i,
            forall|j: int| 0 <= j < i ==> out@[j] == lower(v@[j]),
        decreases v@.len() - i,
    {
        let b = v[i];
        if 65 <= b && b <= 90 {
            out.push(b + 32);
        } else {
            out.push(b);
        }
        i = i + 1;
    }
    assert(out@ =~= lower_bytes(v@));
    out
}

/// The argument views of a decoded command.
pub open spec fn argv(args: Seq<Vec<u8>>) -> Seq<Seq<u8>> {
    args.map_values(|a: Vec<u8>| a@)
}

pub open spec fn resp_simple(w: Seq<u8>) -> Seq<u8> {
    encode_data(RespData::Simple(w))
}

pub open spec fn resp_error(w: Seq<u8>) -> Seq<u8> {
    encode_data(RespData::ErrorMsg(w))
}

pub open spec fn resp_bulk(w: Seq<u8>) -> Seq<u8> {
    encode_data(RespData::Bulk(w))
}

pub open spec fn resp_null_bulk() -> Seq<u8> {
    encode_data(RespData::NullBulk)
}

pub fn simple_of(w: Vec<u8>) -> (r: Vec<u8>)
    ensures
        r@ == resp_simple(w@),
{
    encode_frame(&RespValue::Simple(w))
}

pub fn error_of(w: Vec<u8>) -> (r: Vec<u8>)
    ensures
        r@ == resp_error(w@),
{
    encode_frame(&RespValue::ErrorMsg(w))
}

pub fn bulk_of(w: Vec<u8>) -> (r: Vec<u8>)
    ensures
        r@ == resp_bulk(w@),
{
    encode_frame(&RespValue::Bulk(w))
}

pub fn null_bulk() -> (r: Vec<u8>)
    ensures
        r@ == resp_null_bulk(),
{
    encode_frame(&RespValue::NullBulk)
}

/// An entry is logically gone once its deadline passed.
pub open spec fn entry_expired(e: Option<Expiry>, now_ms: u64) -> bool {
    match e {
        Option::Some(x) => x.spec_expired_at(now_ms),
        Option::None => false,
    }
}

/// The live value under a key: present and not expired.
pub open spec fn live_value(
    m: Map<Seq<u8>, KeyValueData>,
    key: Seq<u8>,
    now_ms: u64,
) -> Option<ValueData> {
    if m.contains_key(key) && !entry_expired(m[key].expiry, now_ms) {
        Option::Some(m[key].value)
    } else {
        Option::None
    }
}

/// What GET answers: the bulk string for a live string value, the null
/// bulk for everything else.
pub open spec fn get_response(
    m: Map<Seq<u8>, KeyValueData>,
    key: Seq<u8>,
    now_ms: u64,
) -> Seq<u8> {
    match live_value(m, key, now_ms) {
        Option::Some(ValueData::Str(s)) => resp_bulk(s),
        Option::Some(_) => resp_null_bulk(),
        Option::None => resp_null_bulk(),
    }
}

/// `Ping` answers `PONG`.
#[derive(Debug)]
pub struct Ping;

impl Ping {
    pub fn exec(&self) -> (r: Vec<u8>)
        ensures
            r@ == resp_simple(lit_pong()),
    {
        simple_of(pong_vec())
    }
}

/// GET with lazy expiry: a live string value is returned; an expired
/// entry is removed and the null bulk returned; everything else answers
/// the null bulk. Only database `DB_NUM` is touched.
pub fn get_cmd(storage: &mut RdbFile, key: &[u8], now_ms: u64) -> (r: Vec<u8>)
    requires
        old(storage).wf(),
    ensures
        final(storage).wf(),
        r@ == get_response(old(storage).contents(DB_NUM), key@, now_ms),
        final(storage).contents(DB_NUM) == if old(storage).contents(DB_NUM).contains_key(key@)
            && entry_expired(old(storage).contents(DB_NUM)[key@].expiry, now_ms) {
            old(storage).contents(DB_NUM).remove(key@)
        } else {
            old(storage).contents(DB_NUM)
        },
        forall|d: u64| d != DB_NUM ==> final(storage).contents(d) == old(storage).contents(d),
        final(storage).version == old(storage).version,
        final(storage).aux_seq() == old(storage).aux_seq(),
        (old(storage).dbs().contains_key(DB_NUM)
            && old(storage).contents(DB_NUM).contains_key(key@)
            && entry_expired(old(storage).contents(DB_NUM)[key@].expiry, now_ms))
            ==> (final(storage).dbs().contains_key(DB_NUM)
            && final(storage).dbs()[DB_NUM].entry_seq().len()
            == old(storage).dbs()[DB_NUM].entry_seq().len() - 1),
{
    match storage.get(DB_NUM, key) {
        Some(kv) => {
            let expired = match &kv.expiry {
                Some(e) => e.expired_at(now_ms),
                None => false,
            };
            if expired {
                storage.delete(DB_NUM, key);
                null_bulk()
            } else {
                assert(storage.contents(DB_NUM) =~= old(storage).contents(DB_NUM));
                match kv.value {
                    RedisValue::Str(s) => bulk_of(s),
                    _ => null_bulk(),
                }
            }
        },
        None => {
            assert(storage.contents(DB_NUM) =~= old(storage).contents(DB_NUM));
            null_bulk()
        },
    }
}

/// SET: stores the value under the key, replacing any previous entry,
/// and answers `OK`.
pub fn set_cmd(storage: &mut RdbFile, key: Vec<u8>, value: Vec<u8>, expiry: Option<Expiry>) -> (r:
    Vec<u8>)
    requires
        old(storage).wf(),
    ensures
        final(storage).wf(),
        r@ == resp_simple(lit_ok()),
        final(storage).contents(DB_NUM) == old(storage).contents(DB_NUM).insert(
            key@,
            KeyValueData { value: ValueData::Str(value@), expiry },
        ),
        forall|d: u64| d != DB_NUM ==> final(storage).contents(d) == old(storage).contents(d),
        final(storage).version == old(storage).version,
        final(storage).aux_seq() == old(storage).aux_seq(),
{
    storage.insert(DB_NUM, key, RedisValue::Str(value), expiry);
    simple_of(ok_vec())
}

/// Setting a key twice to the same value and expiry leaves the same
/// keyspace as setting it once.
pub proof fn lemma_set_idempotent(m: Map<Seq<u8>, KeyValueData>, k: Seq<u8>, kv: KeyValueData)
    ensures
        m.insert(k, kv).insert(k, kv) == m.insert(k, kv),
{
    assert(m.insert(k, kv).insert(k, kv) =~= m.insert(k, kv));
}

/// The keys whose entries are live at `now_ms`, in storage order.
pub open spec fn live_keys(s: Seq<(Seq<u8>, KeyValueData)>, now_ms: u64) -> Seq<Seq<u8>>
    decreases s.len(),
{
    if s.len() == 0 {
        Seq::empty()
    } else if entry_expired(s.last().1.expiry, now_ms) {
        live_keys(s.drop_last(), now_ms)
    } else {
        live_keys(s.drop_last(), now_ms).push(s.last().0)
    }
}

/// What KEYS answers for database `DB_NUM`: all live keys for the `*`
/// pattern, the empty array for any other pattern or a missing
/// database.
pub open spec fn keys_response(storage: RdbFile, pattern: Seq<u8>, now_ms: u64) -> Seq<u8> {
    if pattern == lit_star() {
        if storage.dbs().contains_key(DB_NUM) {
            encode_data(
                RespData::Arr(bulks_of(live_keys(storage.dbs()[DB_NUM].entry_seq(), now_ms))),
            )
        } else {
            encode_data(RespData::Arr(Seq::empty()))
        }
    } else {
        encode_data(RespData::Arr(Seq::empty()))
    }
}

/// KEYS: only the `*` pattern lists keys; expired entries are not
/// listed (and are left in place). Anything else yields an empty array.
pub fn keys_cmd(storage: &RdbFile, pattern: &[u8], now_ms: u64) -> (r: Vec<u8>)
    requires
        storage.wf(),
    ensures
        r@ == keys_response(*storage, pattern@, now_ms),
{
    let mut is_star = false;
    if pattern.len() == 1 {
        if pattern[0] == 42 {
            is_star = true;
            assert(pattern@ =~= lit_star());
        }
    }
    if !is_star {
        assert(pattern@ != lit_star());
        let items: Vec<RespValue> = Vec::new();
        let r = encode_frame(&RespValue::Arr(items));
        proof {
            assert(crate::resp::resp_seq_dv(Seq::<RespValue>::empty())
                =~= Seq::<RespData>::empty());
        }
        return r;
    }
    proof {
        crate::db::lemma_assoc_contains(storage.databases@, DB_NUM);
    }
    match storage.keys(DB_NUM) {
        None => {
            let items: Vec<RespValue> = Vec::new();
            let r = encode_frame(&RespValue::Arr(items));
            proof {
                assert(crate::resp::resp_seq_dv(Seq::<RespValue>::empty())
                    =~= Seq::<RespData>::empty());
            }
            r
        },
        Some(ks) => {
            let ghost db = storage.dbs()[DB_NUM];
            let ghost es = db.entry_seq();
            proof {
                let ix = choose|ix: int|
                    0 <= ix < storage.databases@.len() && (#[trigger] storage.databases@[ix]).0
                        == DB_NUM;
                crate::db::lemma_assoc_get(storage.databases@, ix);
                assert(db == storage.databases@[ix].1);
                assert(db.wf());
            }
            let mut items: Vec<RespValue> = Vec::new();
            let mut i: usize = 0;
            while i < ks.len()
                invariant
                    i <= ks@.len(),
                    storage.wf(),
                    storage.dbs().contains_key(DB_NUM),
                    db == storage.dbs()[DB_NUM],
                    es == db.entry_seq(),
                    db.wf(),
                    ks@.len() == es.len(),
                    forall|j: int| 0 <= j < ks@.len() ==> ks@[j]@ == (#[trigger] es[j]).0,
                    crate::resp::resp_seq_dv(items@) == bulks_of(
                        live_keys(es.subrange(0, i as int), now_ms),
                    ),
                decreases ks@.len() - i,
            {
                let ghost pre = es.subrange(0, i as int);
                proof {
                    crate::db::lemma_assoc_get(es, i as int);
                    assert(es.subrange(0, i + 1).drop_last() =~= pre);
                    assert(es.subrange(0, i + 1).last() == es[i as int]);
                }
                match storage.get(DB_NUM, ks[i].as_slice()) {
                    Some(kv) => {
                        let expired = match &kv.expiry {
                            Some(e) => e.expired_at(now_ms),
                            None => false,
                        };
                        assert(kv.dv() == es[i as int].1);
                        assert(expired == entry_expired(es[i as int].1.expiry, now_ms));
                        if !expired {
                            let ghost items0 = items@;
                            items.push(RespValue::Bulk(clone_bytes(&ks[i])));
                            proof {
                                crate::resp::lemma_resp_seq_dv_len(items@);
                                crate::resp::lemma_resp_seq_dv_len(items0);
                                let lk1 = live_keys(es.subrange(0, i + 1), now_ms);
                                let lk0 = live_keys(pre, now_ms);
                                assert(lk1 =~= lk0.push(es[i as int].0));
                                assert(items@.len() == lk1.len());
                                assert forall|j: int| 0 <= j < items@.len() implies
                                    crate::resp::resp_seq_dv(items@)[j] == bulks_of(lk1)[j] by {
                                    if j < items@.len() - 1 {
                                        assert(items@[j] == items0[j]);
                                        assert(crate::resp::resp_seq_dv(items0)[j] == bulks_of(
                                            lk0,
                                        )[j]);
                                    } else {
                                        assert(items@[j].dv() == RespData::Bulk(es[i as int].0));
                                    }
                                }
                                assert(crate::resp::resp_seq_dv(items@) =~= bulks_of(lk1));
                            }
                        } else {
                            proof {
                                assert(live_keys(es.subrange(0, i + 1), now_ms) =~= live_keys(
                                    pre,
                                    now_ms,
                                ));
                            }
                        }
                    },
                    None => {
                        // with unique keys every listed key is present
                        assert(false);
                    },
                }
                i = i + 1;
            }
            assert(es.subrange(0, es.len() as int) =~= es);
            let r = encode_frame(&RespValue::Arr(items));
            r
        },
    }
}


/// CONFIG GET: answers `[name, value]` for `dir` and `dbfilename`.
pub open spec fn config_response(a: Seq<Seq<u8>>, dir: Seq<u8>, dbfn: Seq<u8>) -> Seq<u8> {
    if a.len() == 2 && lower_bytes(a[0]) == lit_get() {
        if lower_bytes(a[1]) == lit_dir() {
            encode_data(RespData::Arr(bulks_of(seq![lit_dir(), dir])))
        } else if lower_bytes(a[1]) == lit_dbfilename() {
            encode_data(RespData::Arr(bulks_of(seq![lit_dbfilename(), dbfn])))
        } else {
            resp_error(lit_err_unknown_config())
        }
    } else {
        resp_error(lit_err_unknown_config())
    }
}

/// The CONFIG command, carrying its arguments (after the command word)
/// and the configuration it reads.
#[derive(Debug)]
pub struct Config {
    pub cmd: Vec<Vec<u8>>,
    pub db_conf: crate::db::Dbconf,
}

impl Config {
    pub fn new(cmd: Vec<Vec<u8>>, db_conf: &crate::db::Dbconf) -> (r: Config)
        ensures
            r.cmd == cmd,
            r.db_conf.dir@ == db_conf.dir@,
            r.db_conf.db_filename@ == db_conf.db_filename@,
    {
        Config {
            cmd,
            db_conf: crate::db::Dbconf {
                dir: clone_bytes(&db_conf.dir),
                db_filename: clone_bytes(&db_conf.db_filename),
            },
        }
    }

    pub fn exec(&self) -> (r: Vec<u8>)
        ensures
            r@ == config_response(argv(self.cmd@), self.db_conf.dir@, self.db_conf.db_filename@),
    {
        let ghost a = argv(self.cmd@);
        if self.cmd.len() != 2 {
            return error_of(err_unknown_config_vec());
        }
        let sub = to_lower(self.cmd[0].as_slice());
        let getw = crate::ascii::get_vec();
        if !crate::db::bytes_eq(sub.as_slice(), getw.as_slice()) {
            return error_of(err_unknown_config_vec());
        }
        let name = to_lower(self.cmd[1].as_slice());
        let dirw = dir_vec();
        let dbfnw = dbfilename_vec();
        if crate::db::bytes_eq(name.as_slice(), dirw.as_slice()) {
            let mut words: Vec<Vec<u8>> = Vec::new();
            words.push(dir_vec());
            words.push(clone_bytes(&self.db_conf.dir));
            let r = bulk_array_frame(&words);
            proof {
                assert(words@.map_values(|w: Vec<u8>| w@) =~= seq![lit_dir(), self.db_conf.dir@]);
            }
            r
        } else if crate::db::bytes_eq(name.as_slice(), dbfnw.as_slice()) {
            let mut words: Vec<Vec<u8>> = Vec::new();
            words.push(dbfilename_vec());
            words.push(clone_bytes(&self.db_conf.db_filename));
            let r = bulk_array_frame(&words);
            proof {
                assert(words@.map_values(|w: Vec<u8>| w@) =~= seq![
                    lit_dbfilename(),
                    self.db_conf.db_filename@,
                ]);
            }
            r
        } else {
            error_of(err_unknown_config_vec())
        }
    }
}

// ---------------------------------------------------------------------
// INFO

/// One section's fields as `name:value` lines.
pub open spec fn render_fields(fields: Seq<(Seq<u8>, Seq<u8>)>) -> Seq<u8>
    decreases fields.len(),
{
    if fields.len() == 0 {
        Seq::empty()
    } else {
        fields.first().0 + lit_colon() + fields.first().1 + crlf() + render_fields(
            fields.drop_first(),
        )
    }
}

/// All sections, each under a `# name` header line.
pub open spec fn render_sections(secs: Seq<(Seq<u8>, Seq<(Seq<u8>, Seq<u8>)>)>) -> Seq<u8>
    decreases secs.len(),
{
    if secs.len() == 0 {
        Seq::empty()
    } else {
        lit_section_hash() + secs.first().0 + crlf() + render_fields(secs.first().1)
            + render_sections(secs.drop_first())
    }
}

/// The first section whose name matches case-insensitively.
pub open spec fn find_section(
    secs: Seq<(Seq<u8>, Seq<(Seq<u8>, Seq<u8>)>)>,
    name: Seq<u8>,
) -> Option<Seq<(Seq<u8>, Seq<u8>)>>
    decreases secs.len(),
{
    if secs.len() == 0 {
        Option::None
    } else if lower_bytes(secs.first().0) == lower_bytes(name) {
        Option::Some(secs.first().1)
    } else {
        find_section(secs.drop_first(), name)
    }
}

/// What INFO answers: without an argument, every section with its
/// header; with one, that section's fields alone; an empty body is the
/// null bulk.
pub open spec fn info_response(
    secs: Seq<(Seq<u8>, Seq<(Seq<u8>, Seq<u8>)>)>,
    arg: Option<Seq<u8>>,
) -> Seq<u8> {
    match arg {
        Option::None => {
            let body = render_sections(secs);
            if body.len() == 0 {
                resp_null_bulk()
            } else {
                resp_bulk(body)
            }
        },
        Option::Some(name) => match find_section(secs, name) {
            Option::Some(fields) => {
                let body = render_fields(fields);
                if body.len() == 0 {
                    resp_null_bulk()
                } else {
                    resp_bulk(body)
                }
            },
            Option::None => resp_null_bulk(),
        },
    }
}

proof fn lemma_render_fields_snoc(fields: Seq<(Seq<u8>, Seq<u8>)>, x: (Seq<u8>, Seq<u8>))
    ensures
        render_fields(fields.push(x)) == render_fields(fields) + x.0 + lit_colon() + x.1 + crlf(),
    decreases fields.len(),
{
    if fields.len() == 0 {
        assert(fields.push(x).first() == x);
        assert(fields.push(x).drop_first() =~= Seq::<(Seq<u8>, Seq<u8>)>::empty());
        assert(render_fields(Seq::<(Seq<u8>, Seq<u8>)>::empty()) == Seq::<u8>::empty());
        assert(render_fields(fields.push(x)) =~= render_fields(fields) + x.0 + lit_colon() + x.1
            + crlf());
    } else {
        lemma_render_fields_snoc(fields.drop_first(), x);
        assert(fields.push(x).drop_first() =~= fields.drop_first().push(x));
        assert(fields.push(x).first() == fields.first());
        assert(render_fields(fields.push(x)) =~= render_fields(fields) + x.0 + lit_colon() + x.1
            + crlf());
    }
}

proof fn lemma_render_sections_snoc(
    secs: Seq<(Seq<u8>, Seq<(Seq<u8>, Seq<u8>)>)>,
    x: (Seq<u8>, Seq<(Seq<u8>, Seq<u8>)>),
)
    ensures
        render_sections(secs.push(x)) == render_sections(secs) + lit_section_hash() + x.0 + crlf()
            + render_fields(x.1),
    decreases secs.len(),
{
    if secs.len() == 0 {
        assert(secs.push(x).first() == x);
        assert(secs.push(x).drop_first() =~= Seq::<(Seq<u8>, Seq<(Seq<u8>, Seq<u8>)>)>::empty());
        assert(render_sections(Seq::<(Seq<u8>, Seq<(Seq<u8>, Seq<u8>)>)>::empty())
            == Seq::<u8>::empty());
        assert(render_sections(secs.push(x)) =~= render_sections(secs) + lit_section_hash() + x.0
            + crlf() + render_fields(x.1));
    } else {
        lemma_render_sections_snoc(secs.drop_first(), x);
        assert(secs.push(x).drop_first() =~= secs.drop_first().push(x));
        assert(secs.push(x).first() == secs.first());
        assert(render_sections(secs.push(x)) =~= render_sections(secs) + lit_section_hash() + x.0
            + crlf() + render_fields(x.1));
    }
}

/// Appends the `name:value` lines of one section's fields.
fn render_fields_exec(fields: &Vec<(Vec<u8>, Vec<u8>)>, out: &mut Vec<u8>)
    ensures
        final(out)@ == old(out)@ + render_fields(crate::server::pair_views(fields@)),
{
    let ghost fv = crate::server::pair_views(fields@);
    let mut i: usize = 0;
    assert(render_fields(fv.subrange(0, 0)) =~= Seq::<u8>::empty()) by {
        assert(fv.subrange(0, 0) =~= Seq::<(Seq<u8>, Seq<u8>)>::empty());
    }
    assert(out@ =~= old(out)@ + render_fields(fv.subrange(0, 0)));
    while i < fields.len()
        invariant
            i <= fields@.len(),
            fv == fields@.map_values(|e: (Vec<u8>, Vec<u8>)| (e.0@, e.1@)),
            out@ == old(out)@ + render_fields(fv.subrange(0, i as int)),
        decreases fields@.len() - i,
    {
        crate::num::append_bytes(out, fields[i].0.as_slice());
        out.push(58);
        crate::num::append_bytes(out, fields[i].1.as_slice());
        out.push(13);
        out.push(10);
        proof {
            lemma_render_fields_snoc(fv.subrange(0, i as int), fv[i as int]);
            assert(fv.subrange(0, i + 1) =~= fv.subrange(0, i as int).push(fv[i as int]));
            assert(out@ =~= old(out)@ + render_fields(fv.subrange(0, i + 1)));
        }
        i = i + 1;
    }
    assert(fv.subrange(0, i as int) =~= fv);
}

/// INFO against the server's sections.
pub fn info_cmd(
    info: &Vec<(Vec<u8>, Vec<(Vec<u8>, Vec<u8>)>)>,
    arg: Option<&Vec<u8>>,
) -> (r: Vec<u8>)
    ensures
        r@ == info_response(
            sections_view(info@),
            match arg {
                Option::Some(a) => Option::Some(a@),
                Option::None => Option::None,
            },
        ),
{
    let ghost secs = sections_view(info@);
    match arg {
        None => {
            let mut body: Vec<u8> = Vec::new();
            let mut i: usize = 0;
            assert(render_sections(secs.subrange(0, 0)) =~= Seq::<u8>::empty()) by {
                assert(secs.subrange(0, 0) =~= Seq::<(Seq<u8>, Seq<(Seq<u8>, Seq<u8>)>)>::empty());
            }
            assert(body@ =~= render_sections(secs.subrange(0, 0)));
            while i < info.len()
                invariant
                    i <= info@.len(),
                    secs == sections_view(info@),
                    body@ == render_sections(secs.subrange(0, i as int)),
                decreases info@.len() - i,
            {
                body.push(35);
                body.push(32);
                crate::num::append_bytes(&mut body, info[i].0.as_slice());
                body.push(13);
                body.push(10);
                render_fields_exec(&info[i].1, &mut body);
                proof {
                    lemma_render_sections_snoc(secs.subrange(0, i as int), secs[i as int]);
                    assert(secs.subrange(0, i + 1) =~= secs.subrange(0, i as int).push(
                        secs[i as int],
                    ));
                    assert(body@ =~= render_sections(secs.subrange(0, i + 1)));
                }
                i = i + 1;
            }
            assert(secs.subrange(0, i as int) =~= secs);
            if body.len() == 0 {
                null_bulk()
            } else {
                bulk_of(body)
            }
        },
        Some(name) => {
            let mut i: usize = 0;
            let nl = to_lower(name.as_slice());
            assert(secs.skip(0) =~= secs);
            while i < info.len()
                invariant
                    i <= info@.len(),
                    secs == sections_view(info@),
                    nl@ == lower_bytes(name@),
                    arg == Option::Some(name),
                    find_section(secs, name@) == find_section(secs.skip(i as int), name@),
                decreases info@.len() - i,
            {
                let sl = to_lower(info[i].0.as_slice());
                proof {
                    assert(secs.skip(i as int).first() == secs[i as int]);
                    assert(secs.skip(i as int).drop_first() =~= secs.skip(i + 1));
                }
                if crate::db::bytes_eq(sl.as_slice(), nl.as_slice()) {
                    assert(find_section(secs, name@) == Option::Some(secs[i as int].1));
                    let mut body: Vec<u8> = Vec::new();
                    render_fields_exec(&info[i].1, &mut body);
                    assert(secs[i as int].1 == crate::server::pair_views(info@[i as int].1@));
                    assert(body@ == render_fields(secs[i as int].1));
                    if body.len() == 0 {
                        return null_bulk();
                    } else {
                        return bulk_of(body);
                    }
                }
                i = i + 1;
            }
            assert(secs.skip(i as int) =~= Seq::<(Seq<u8>, Seq<(Seq<u8>, Seq<u8>)>)>::empty());
            null_bulk()
        },
    }
}


// ---------------------------------------------------------------------
// PSYNC

/// The store a master ships to a fresh replica: empty, current format
/// version.
pub open spec fn empty_rdb() -> RdbData {
    RdbData { version: RDB_VERSION, aux: Seq::empty(), dbs: Seq::empty() }
}

/// The FULLRESYNC status line: the word, the replication id, the offset.
pub open spec fn fullresync_line(replid: Seq<u8>, offset: u32) -> Seq<u8> {
    lit_fullresync_prefix() + replid + seq![32u8] + dec_digits(offset as nat)
}

/// The whole PSYNC answer: the status line, then the snapshot framed as
/// a bulk string without its trailing CRLF, so that replicated command
/// frames follow the snapshot bytes directly.
pub open spec fn psync_response(replid: Seq<u8>, offset: u32) -> Seq<u8> {
    resp_simple(fullresync_line(replid, offset)) + seq![36u8] + dec_digits(
        rdb_encode(empty_rdb()).len(),
    ) + crlf() + rdb_encode(empty_rdb())
}

/// Serves `PSYNC ? -1`: emits the FULLRESYNC line and the snapshot in
/// one buffer.
pub fn psync_cmd(replid: &Vec<u8>, offset: u32) -> (r: Vec<u8>)
    ensures
        r@ == psync_response(replid@, offset),
{
    let mut line: Vec<u8> = crate::ascii::fullresync_prefix_vec();
    crate::num::append_bytes(&mut line, replid.as_slice());
    line.push(32);
    push_dec_u64(offset as u64, &mut line);
    assert(line@ =~= fullresync_line(replid@, offset));
    let mut out = simple_of(line);
    let snapshot = RdbFile::new(RDB_VERSION);
    proof {
        assert(rdb_dv(snapshot).aux =~= empty_rdb().aux);
        assert(rdb_dv(snapshot).dbs =~= empty_rdb().dbs);
        assert(rdb_dv(snapshot) == empty_rdb());
        assert(rdb_len_wf(rdb_dv(snapshot)));
    }
    let payload = rdb_write(&snapshot);
    out.push(36);
    push_dec_u64(payload.len() as u64, &mut out);
    out.push(13);
    out.push(10);
    crate::num::append_bytes(&mut out, payload.as_slice());
    assert(out@ =~= psync_response(replid@, offset));
    out
}

// ---------------------------------------------------------------------
// Dispatch

/// What one command leaves behind: the response bytes, the keyspace of
/// the working database, the replica registry, and the port to bind this
/// connection to when the command registered a replica.
pub struct DispatchSpec {
    pub response: Seq<u8>,
    pub keyspace: Map<Seq<u8>, KeyValueData>,
    pub ports: Seq<Seq<u8>>,
    pub ready: bool,
    pub registered_port: Option<Seq<u8>>,
}

/// A pure reply: the state stays as it was.
pub open spec fn just_reply(s0: Server, response: Seq<u8>) -> DispatchSpec {
    DispatchSpec {
        response,
        keyspace: s0.storage.contents(DB_NUM),
        ports: s0.repl_set.ports(),
        ready: s0.repl_set.ready,
        registered_port: Option::None,
    }
}

/// The meaning of one decoded command against server state `s0` at time
/// `now_ms`: the command set of this server, exactly.
pub open spec fn spec_dispatch(s0: Server, a: Seq<Seq<u8>>, now_ms: u64) -> DispatchSpec {
    let ks = s0.storage.contents(DB_NUM);
    if a.len() == 0 {
        just_reply(s0, resp_error(lit_err_unknown_command()))
    } else {
        let c = lower_bytes(a[0]);
        if c == lit_ping() {
            if a.len() == 1 {
                just_reply(s0, resp_simple(lit_pong()))
            } else if a.len() == 2 {
                just_reply(s0, resp_bulk(a[1]))
            } else {
                just_reply(s0, resp_error(lit_err_wrong_arity()))
            }
        } else if c == lit_echo() {
            if a.len() == 2 {
                just_reply(s0, resp_bulk(a[1]))
            } else {
                just_reply(s0, resp_error(lit_err_wrong_arity()))
            }
        } else if c == lit_get() {
            if a.len() == 2 {
                DispatchSpec {
                    response: get_response(ks, a[1], now_ms),
                    keyspace: if ks.contains_key(a[1]) && entry_expired(ks[a[1]].expiry, now_ms) {
                        ks.remove(a[1])
                    } else {
                        ks
                    },
                    ports: s0.repl_set.ports(),
                    ready: s0.repl_set.ready,
                    registered_port: Option::None,
                }
            } else {
                just_reply(s0, resp_error(lit_err_wrong_arity()))
            }
        } else if c == lit_set() {
            spec_dispatch_set(s0, a, now_ms)
        } else if c == lit_keys() {
            if a.len() == 2 {
                just_reply(s0, keys_response(s0.storage, a[1], now_ms))
            } else {
                just_reply(s0, resp_error(lit_err_wrong_arity()))
            }
        } else if c == lit_config() {
            just_reply(
                s0,
                config_response(a.drop_first(), s0.option.db_conf.dir@,
                    s0.option.db_conf.db_filename@),
            )
        } else if c == lit_info() {
            if a.len() == 1 {
                just_reply(s0, info_response(sections_view(s0.info@), Option::None))
            } else if a.len() == 2 {
                just_reply(s0, info_response(sections_view(s0.info@), Option::Some(a[1])))
            } else {
                just_reply(s0, resp_error(lit_err_wrong_arity()))
            }
        } else if c == lit_replconf() {
            if a.len() >= 3 && lower_bytes(a[1]) == lit_listening_port() {
                // the registry is keyed by port: re-announcing one replaces
                DispatchSpec {
                    response: resp_simple(lit_ok()),
                    keyspace: ks,
                    ports: if s0.repl_set.ports().contains(a[2]) {
                        s0.repl_set.ports()
                    } else {
                        s0.repl_set.ports().push(a[2])
                    },
                    ready: s0.repl_set.ready,
                    registered_port: Option::Some(a[2]),
                }
            } else if a.len() >= 3 && lower_bytes(a[1]) == lit_capa() {
                if s0.repl_set.ports().len() > 0 {
                    just_reply(s0, resp_simple(lit_ok()))
                } else {
                    just_reply(s0, resp_null_bulk())
                }
            } else {
                just_reply(s0, resp_error(lit_err_unknown_replconf()))
            }
        } else if c == lit_psync() {
            if a.len() == 3 && a[1] == lit_qmark() && a[2] == lit_neg_one() {
                DispatchSpec {
                    response: psync_response(s0.option.master_replid@,
                        s0.option.master_repl_offset),
                    keyspace: ks,
                    ports: s0.repl_set.ports(),
                    ready: true,
                    registered_port: Option::None,
                }
            } else {
                just_reply(s0, resp_error(lit_err_bad_psync()))
            }
        } else {
            just_reply(s0, resp_error(lit_err_unknown_command()))
        }
    }
}

/// SET's forms: no expiry, `PX` milliseconds, `EX` seconds. The deadline
/// is absolute: the current time plus the requested span; one that does
/// not fit its field is rejected.
pub open spec fn spec_dispatch_set(s0: Server, a: Seq<Seq<u8>>, now_ms: u64) -> DispatchSpec {
    let ks = s0.storage.contents(DB_NUM);
    if a.len() == 3 {
        DispatchSpec {
            response: resp_simple(lit_ok()),
            keyspace: ks.insert(a[1], KeyValueData { value: ValueData::Str(a[2]), expiry: Option::None }),
            ports: s0.repl_set.ports(),
            ready: s0.repl_set.ready,
            registered_port: Option::None,
        }
    } else if a.len() == 5 {
        let num_ok = a[4].len() > 0 && crate::num::all_digits(a[4]) && crate::num::dec_value(a[4])
            <= u64::MAX;
        if lower_bytes(a[3]) == lit_px() {
            if !num_ok || now_ms + crate::num::dec_value(a[4]) > u64::MAX {
                just_reply(s0, resp_error(lit_err_bad_expire()))
            } else {
                DispatchSpec {
                    response: resp_simple(lit_ok()),
                    keyspace: ks.insert(
                        a[1],
                        KeyValueData {
                            value: ValueData::Str(a[2]),
                            expiry: Option::Some(
                                Expiry::Milliseconds((now_ms + crate::num::dec_value(a[4])) as u64),
                            ),
                        },
                    ),
                    ports: s0.repl_set.ports(),
                    ready: s0.repl_set.ready,
                    registered_port: Option::None,
                }
            }
        } else if lower_bytes(a[3]) == lit_ex() {
            if !num_ok || now_ms / 1000 + crate::num::dec_value(a[4]) > u32::MAX {
                just_reply(s0, resp_error(lit_err_bad_expire()))
            } else {
                DispatchSpec {
                    response: resp_simple(lit_ok()),
                    keyspace: ks.insert(
                        a[1],
                        KeyValueData {
                            value: ValueData::Str(a[2]),
                            expiry: Option::Some(
                                Expiry::Seconds((now_ms / 1000 + crate::num::dec_value(a[4])) as u32),
                            ),
                        },
                    ),
                    ports: s0.repl_set.ports(),
                    ready: s0.repl_set.ready,
                    registered_port: Option::None,
                }
            }
        } else {
            just_reply(s0, resp_error(lit_err_bad_set_suffix()))
        }
    } else {
        just_reply(s0, resp_error(lit_err_wrong_arity()))
    }
}

/// The response to one command, and the port to associate with this
/// connection when the command registered it as a replica.
pub struct CommandOutcome {
    pub response: Vec<u8>,
    pub registered_port: Option<Vec<u8>>,
}

/// Runs one decoded command against the server: exactly the transition
/// `spec_dispatch` describes.
pub fn from_cmd_to_exec(server: &mut Server, args: &Vec<Vec<u8>>, now_ms: u64) -> (r:
    CommandOutcome)
    requires
        old(server).wf(),
    ensures
        final(server).wf(),
        ({
            let d = spec_dispatch(*old(server), argv(args@), now_ms);
            &&& r.response@ == d.response
            &&& final(server).storage.contents(DB_NUM) == d.keyspace
            &&& final(server).repl_set.ports() == d.ports
            &&& final(server).repl_set.ready == d.ready
            &&& match (r.registered_port, d.registered_port) {
                (Option::Some(p), Option::Some(q)) => p@ == q,
                (Option::None, Option::None) => true,
                _ => false,
            }
            &&& final(server).option == old(server).option
            &&& final(server).info == old(server).info
            &&& forall|dd: u64|
                dd != DB_NUM ==> final(server).storage.contents(dd) == old(
                    server,
                ).storage.contents(dd)
        }),
{
    let ghost a = argv(args@);
    if args.len() == 0 {
        return CommandOutcome {
            response: error_of(err_unknown_command_vec()),
            registered_port: None,
        };
    }
    let c = to_lower(args[0].as_slice());
    if crate::db::bytes_eq(c.as_slice(), crate::ascii::ping_vec().as_slice()) {
        let response = if args.len() == 1 {
            simple_of(pong_vec())
        } else if args.len() == 2 {
            bulk_of(clone_bytes(&args[1]))
        } else {
            error_of(err_wrong_arity_vec())
        };
        CommandOutcome { response, registered_port: None }
    } else if crate::db::bytes_eq(c.as_slice(), crate::ascii::echo_vec().as_slice()) {
        let response = if args.len() == 2 {
            bulk_of(clone_bytes(&args[1]))
        } else {
            error_of(err_wrong_arity_vec())
        };
        CommandOutcome { response, registered_port: None }
    } else if crate::db::bytes_eq(c.as_slice(), crate::ascii::get_vec().as_slice()) {
        let response = if args.len() == 2 {
            get_cmd(&mut server.storage, args[1].as_slice(), now_ms)
        } else {
            error_of(err_wrong_arity_vec())
        };
        CommandOutcome { response, registered_port: None }
    } else if crate::db::bytes_eq(c.as_slice(), crate::ascii::set_vec().as_slice()) {
        let response = exec_set(server, args, now_ms);
        CommandOutcome { response, registered_port: None }
    } else if crate::db::bytes_eq(c.as_slice(), crate::ascii::keys_vec().as_slice()) {
        let response = if args.len() == 2 {
            keys_cmd(&server.storage, args[1].as_slice(), now_ms)
        } else {
            error_of(err_wrong_arity_vec())
        };
        CommandOutcome { response, registered_port: None }
    } else if crate::db::bytes_eq(c.as_slice(), crate::ascii::config_vec().as_slice()) {
        let mut rest: Vec<Vec<u8>> = Vec::new();
        let mut i: usize = 1;
        while i < args.len()
            invariant
                1 <= i <= args@.len(),
                rest@.len() == i - 1,
                forall|j: int| 0 <= j < i - 1 ==> (#[trigger] rest@[j])@ == args@[j + 1]@,
            decreases args@.len() - i,
        {
            rest.push(clone_bytes(&args[i]));
            i = i + 1;
        }
        proof {
            assert(argv(rest@) =~= a.drop_first());
        }
        let cfg = Config::new(rest, &server.option.db_conf);
        let response = cfg.exec();
        CommandOutcome { response, registered_port: None }
    } else if crate::db::bytes_eq(c.as_slice(), crate::ascii::info_vec().as_slice()) {
        let response = if args.len() == 1 {
            info_cmd(&server.info, None)
        } else if args.len() == 2 {
            info_cmd(&server.info, Some(&args[1]))
        } else {
            error_of(err_wrong_arity_vec())
        };
        CommandOutcome { response, registered_port: None }
    } else if crate::db::bytes_eq(c.as_slice(), crate::ascii::replconf_vec().as_slice()) {
        if args.len() >= 3 {
            let sub = to_lower(args[1].as_slice());
            if crate::db::bytes_eq(sub.as_slice(), crate::ascii::listening_port_vec().as_slice()) {
                let port = clone_bytes(&args[2]);
                server.repl_set.add_a_repl(crate::replication::Replication {
                    port: clone_bytes(&port),
                });
                return CommandOutcome {
                    response: simple_of(ok_vec()),
                    registered_port: Some(port),
                };
            }
        }
        if args.len() >= 3 {
            let sub = to_lower(args[1].as_slice());
            if crate::db::bytes_eq(sub.as_slice(), crate::ascii::capa_vec().as_slice()) {
                let response = if !server.repl_set.is_empty() {
                    simple_of(ok_vec())
                } else {
                    null_bulk()
                };
                return CommandOutcome { response, registered_port: None };
            }
        }
        CommandOutcome { response: error_of(err_unknown_replconf_vec()), registered_port: None }
    } else if crate::db::bytes_eq(c.as_slice(), crate::ascii::psync_vec().as_slice()) {
        if args.len() == 3 {
            let q = crate::ascii::qmark_vec();
            let n1 = crate::ascii::neg_one_vec();
            if crate::db::bytes_eq(args[1].as_slice(), q.as_slice()) && crate::db::bytes_eq(
                args[2].as_slice(),
                n1.as_slice(),
            ) {
                let replid = server.option.get_master_replid();
                let response = psync_cmd(&replid, server.option.get_repl_offset());
                server.repl_set.set_ready(true);
                return CommandOutcome { response, registered_port: None };
            }
        }
        CommandOutcome { response: error_of(err_bad_psync_vec()), registered_port: None }
    } else {
        CommandOutcome { response: error_of(err_unknown_command_vec()), registered_port: None }
    }
}

/// The SET arms of the dispatcher.
fn exec_set(server: &mut Server, args: &Vec<Vec<u8>>, now_ms: u64) -> (response: Vec<u8>)
    requires
        old(server).wf(),
        args@.len() >= 1,
    ensures
        final(server).wf(),
        ({
            let d = spec_dispatch_set(*old(server), argv(args@), now_ms);
            &&& response@ == d.response
            &&& final(server).storage.contents(DB_NUM) == d.keyspace
            &&& final(server).repl_set == old(server).repl_set
            &&& final(server).option == old(server).option
            &&& final(server).info == old(server).info
            &&& forall|dd: u64|
                dd != DB_NUM ==> final(server).storage.contents(dd) == old(
                    server,
                ).storage.contents(dd)
        }),
{
    if args.len() == 3 {
        set_cmd(&mut server.storage, clone_bytes(&args[1]), clone_bytes(&args[2]), None)
    } else if args.len() == 5 {
        let suffix = to_lower(args[3].as_slice());
        let num = crate::num::parse_dec_u64(args[4].as_slice());
        if crate::db::bytes_eq(suffix.as_slice(), crate::ascii::px_vec().as_slice()) {
            match num {
                Some(ms) => {
                    if ms > u64::MAX - now_ms {
                        error_of(err_bad_expire_vec())
                    } else {
                        set_cmd(
                            &mut server.storage,
                            clone_bytes(&args[1]),
                            clone_bytes(&args[2]),
                            Some(Expiry::Milliseconds(now_ms + ms)),
                        )
                    }
                },
                None => error_of(err_bad_expire_vec()),
            }
        } else if crate::db::bytes_eq(suffix.as_slice(), crate::ascii::ex_vec().as_slice()) {
            match num {
                Some(secs) => {
                    let now_s = now_ms / 1000;
                    if secs > u64::MAX - now_s || now_s + secs > u32::MAX as u64 {
                        error_of(err_bad_expire_vec())
                    } else {
                        set_cmd(
                            &mut server.storage,
                            clone_bytes(&args[1]),
                            clone_bytes(&args[2]),
                            Some(Expiry::Seconds((now_s + secs) as u32)),
                        )
                    }
                },
                None => error_of(err_bad_expire_vec()),
            }
        } else {
            error_of(err_bad_set_suffix_vec())
        }
    } else {
        error_of(err_wrong_arity_vec())
    }
}


/// Lazy expiry as a law: an entry stored with deadline `e` is live
/// exactly until the deadline; a read at or past it sees nothing.
pub proof fn lemma_lazy_expiry(
    m: Map<Seq<u8>, KeyValueData>,
    k: Seq<u8>,
    v: ValueData,
    e: Expiry,
    now_ms: u64,
)
    ensures
        e.spec_expired_at(now_ms) ==> live_value(
            m.insert(k, KeyValueData { value: v, expiry: Option::Some(e) }),
            k,
            now_ms,
        ) is None,
        !e.spec_expired_at(now_ms) ==> live_value(
            m.insert(k, KeyValueData { value: v, expiry: Option::Some(e) }),
            k,
            now_ms,
        ) == Option::Some(v),
{
}

/// The bulk-string contents of a run of frames, when every frame is a
/// bulk string.
pub open spec fn bulk_contents(items: Seq<RespData>) -> Option<Seq<Seq<u8>>>
    decreases items.len(),
{
    if items.len() == 0 {
        Option::Some(Seq::empty())
    } else {
        match items.first() {
            RespData::Bulk(s) => match bulk_contents(items.drop_first()) {
                Option::Some(rest) => Option::Some(seq![s] + rest),
                Option::None => Option::None,
            },
            _ => Option::None,
        }
    }
}

/// The command a frame carries: the contents of an array of bulk
/// strings; any other frame carries none.
pub open spec fn args_of_frame(d: RespData) -> Option<Seq<Seq<u8>>> {
    match d {
        RespData::Arr(items) => bulk_contents(items),
        _ => Option::None,
    }
}

/// Takes the command out of a decoded frame: the elements of an array of
/// bulk strings.
pub fn frame_args(v: RespValue) -> (r: Option<Vec<Vec<u8>>>)
    ensures
        match r {
            Option::Some(args) => args_of_frame(v.dv()) == Option::Some(argv(args@)),
            Option::None => args_of_frame(v.dv()) is None,
        },
{
    match v {
        RespValue::Arr(items) => {
            let ghost itemsd = crate::resp::resp_seq_dv(items@);
            proof {
                crate::resp::lemma_resp_seq_dv_len(items@);
            }
            let mut out: Vec<Vec<u8>> = Vec::new();
            let mut i: usize = 0;
            assert(itemsd.skip(0) =~= itemsd);
            while i < items.len()
                invariant
                    i <= items@.len(),
                    v.dv() == RespData::Arr(itemsd),
                    itemsd == crate::resp::resp_seq_dv(items@),
                    itemsd.len() == items@.len(),
                    forall|j: int|
                        0 <= j < items@.len() ==> itemsd[j] == (#[trigger] items@[j]).dv(),
                    out@.len() == i,
                    forall|j: int|
                        0 <= j < i ==> itemsd[j] == RespData::Bulk((#[trigger] out@[j])@),
                    bulk_contents(itemsd) == match bulk_contents(itemsd.skip(i as int)) {
                        Option::Some(rest) => Option::Some(argv(out@) + rest),
                        Option::None => Option::<Seq<Seq<u8>>>::None,
                    },
                decreases items@.len() - i,
            {
                proof {
                    assert(itemsd.skip(i as int).first() == itemsd[i as int]);
                    assert(itemsd.skip(i as int).drop_first() =~= itemsd.skip(i + 1));
                }
                match &items[i] {
                    RespValue::Bulk(s) => {
                        let ghost out0 = out@;
                        out.push(clone_bytes(s));
                        proof {
                            assert(argv(out@) =~= argv(out0).push(s@));
                            assert forall|rest: Seq<Seq<u8>>|
                                true implies (seq![s@] + rest).len() >= 0 by {}
                            assert(forall|rest: Seq<Seq<u8>>|
                                argv(out0) + (seq![s@] + rest) =~= argv(out@) + rest);
                        }
                    },
                    _ => {
                        proof {
                            assert(!(itemsd[i as int] is Bulk));
                            assert(itemsd.skip(i as int).len() > 0);
                            assert(itemsd.skip(i as int).first() == itemsd[i as int]);
                            assert(bulk_contents(itemsd.skip(i as int)) is None);
                            assert(bulk_contents(itemsd) is None);
                        }
                        return None;
                    },
                }
                i = i + 1;
            }
            proof {
                assert(itemsd.skip(i as int) =~= Seq::<RespData>::empty());
                assert(bulk_contents(Seq::<RespData>::empty()) == Option::Some(
                    Seq::<Seq<u8>>::empty(),
                ));
                assert(argv(out@) + Seq::<Seq<u8>>::empty() =~= argv(out@));
            }
            Some(out)
        },
        _ => None,
    }
}

} // verus!



