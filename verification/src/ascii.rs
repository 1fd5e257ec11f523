//! ASCII literals of the protocol, each as a specification sequence and
//! an executable constructor proved to produce it.

use vstd::prelude::*;

verus! {
/// `ping`
pub open spec fn lit_ping() -> Seq<u8> {
    seq![112u8, 105u8, 110u8, 103u8]
}

pub fn ping_vec() -> (r: Vec<u8>)
    ensures
        r@ == lit_ping(),
{
    let mut v: Vec<u8> = Vec::new();
    v.push(112);
    v.push(105);
    v.push(110);
    v.push(103);
    assert(v@ =~= lit_ping());
    v
}

/// `echo`
pub open spec fn lit_echo() -> Seq<u8> {
    seq![101u8, 99u8, 104u8, 111u8]
}

pub fn echo_vec() -> (r: Vec<u8>)
    ensures
        r@ == lit_echo(),
{
    let mut v: Vec<u8> = Vec::new();
    v.push(101);
    v.push(99);
    v.push(104);
    v.push(111);
    assert(v@ =~= lit_echo());
    v
}

/// `get`
pub open spec fn lit_get() -> Seq<u8> {
    seq![103u8, 101u8, 116u8]
}

pub fn get_vec() -> (r: Vec<u8>)
    ensures
        r@ == lit_get(),
{
    let mut v: Vec<u8> = Vec::new();
    v.push(103);
    v.push(101);
    v.push(116);
    assert(v@ =~= lit_get());
    v
}

/// `set`
pub open spec fn lit_set() -> Seq<u8> {
    seq![115u8, 101u8, 116u8]
}

pub fn set_vec() -> (r: Vec<u8>)
    ensures
        r@ == lit_set(),
{
    let mut v: Vec<u8> = Vec::new();
    v.push(115);
    v.push(101);
    v.push(116);
    assert(v@ =~= lit_set());
    v
}

/// `keys`
pub open spec fn lit_keys() -> Seq<u8> {
    seq![107u8, 101u8, 121u8, 115u8]
}

pub fn keys_vec() -> (r: Vec<u8>)
    ensures
        r@ == lit_keys(),
{
    let mut v: Vec<u8> = Vec::new();
    v.push(107);
    v.push(101);
    v.push(121);
    v.push(115);
    assert(v@ =~= lit_keys());
    v
}

/// `config`
pub open spec fn lit_config() -> Seq<u8> {
    seq![99u8, 111u8, 110u8, 102u8, 105u8, 103u8]
}

pub fn config_vec() -> (r: Vec<u8>)
    ensures
        r@ == lit_config(),
{
    let mut v: Vec<u8> = Vec::new();
    v.push(99);
    v.push(111);
    v.push(110);
    v.push(102);
    v.push(105);
    v.push(103);
    assert(v@ =~= lit_config());
    v
}

/// `info`
pub open spec fn lit_info() -> Seq<u8> {
    seq![105u8, 110u8, 102u8, 111u8]
}

pub fn info_vec() -> (r: Vec<u8>)
    ensures
        r@ == lit_info(),
{
    let mut v: Vec<u8> = Vec::new();
    v.push(105);
    v.push(110);
    v.push(102);
    v.push(111);
    assert(v@ =~= lit_info());
    v
}

/// `replconf`
pub open spec fn lit_replconf() -> Seq<u8> {
    seq![114u8, 101u8, 112u8, 108u8, 99u8, 111u8, 110u8, 102u8]
}

pub fn replconf_vec() -> (r: Vec<u8>)
    ensures
        r@ == lit_replconf(),
{
    let mut v: Vec<u8> = Vec::new();
    v.push(114);
    v.push(101);
    v.push(112);
    v.push(108);
    v.push(99);
    v.push(111);
    v.push(110);
    v.push(102);
    assert(v@ =~= lit_replconf());
    v
}

/// `psync`
pub open spec fn lit_psync() -> Seq<u8> {
    seq![112u8, 115u8, 121u8, 110u8, 99u8]
}

pub fn psync_vec() -> (r: Vec<u8>)
    ensures
        r@ == lit_psync(),
{
    let mut v: Vec<u8> = Vec::new();
    v.push(112);
    v.push(115);
    v.push(121);
    v.push(110);
    v.push(99);
    assert(v@ =~= lit_psync());
    v
}

/// `px`
pub open spec fn lit_px() -> Seq<u8> {
    seq![112u8, 120u8]
}

pub fn px_vec() -> (r: Vec<u8>)
    ensures
        r@ == lit_px(),
{
    let mut v: Vec<u8> = Vec::new();
    v.push(112);
    v.push(120);
    assert(v@ =~= lit_px());
    v
}

/// `ex`
pub open spec fn lit_ex() -> Seq<u8> {
    seq![101u8, 120u8]
}

pub fn ex_vec() -> (r: Vec<u8>)
    ensures
        r@ == lit_ex(),
{
    let mut v: Vec<u8> = Vec::new();
    v.push(101);
    v.push(120);
    assert(v@ =~= lit_ex());
    v
}

/// `dir`
pub open spec fn lit_dir() -> Seq<u8> {
    seq![100u8, 105u8, 114u8]
}

pub fn dir_vec() -> (r: Vec<u8>)
    ensures
        r@ == lit_dir(),
{
    let mut v: Vec<u8> = Vec::new();
    v.push(100);
    v.push(105);
    v.push(114);
    assert(v@ =~= lit_dir());
    v
}

/// `dbfilename`
pub open spec fn lit_dbfilename() -> Seq<u8> {
    seq![100u8, 98u8, 102u8, 105u8, 108u8, 101u8, 110u8, 97u8, 109u8, 101u8]
}

pub fn dbfilename_vec() -> (r: Vec<u8>)
    ensures
        r@ == lit_dbfilename(),
{
    let mut v: Vec<u8> = Vec::new();
    v.push(100);
    v.push(98);
    v.push(102);
    v.push(105);
    v.push(108);
    v.push(101);
    v.push(110);
    v.push(97);
    v.push(109);
    v.push(101);
    assert(v@ =~= lit_dbfilename());
    v
}

/// `listening-port`
pub open spec fn lit_listening_port() -> Seq<u8> {
    seq![108u8, 105u8, 115u8, 116u8, 101u8, 110u8, 105u8, 110u8, 103u8, 45u8, 112u8, 111u8, 114u8, 116u8]
}

pub fn listening_port_vec() -> (r: Vec<u8>)
    ensures
        r@ == lit_listening_port(),
{
    let mut v: Vec<u8> = Vec::new();
    v.push(108);
    v.push(105);
    v.push(115);
    v.push(116);
    v.push(101);
    v.push(110);
    v.push(105);
    v.push(110);
    v.push(103);
    v.push(45);
    v.push(112);
    v.push(111);
    v.push(114);
    v.push(116);
    assert(v@ =~= lit_listening_port());
    v
}

/// `capa`
pub open spec fn lit_capa() -> Seq<u8> {
    seq![99u8, 97u8, 112u8, 97u8]
}

pub fn capa_vec() -> (r: Vec<u8>)
    ensures
        r@ == lit_capa(),
{
    let mut v: Vec<u8> = Vec::new();
    v.push(99);
    v.push(97);
    v.push(112);
    v.push(97);
    assert(v@ =~= lit_capa());
    v
}

/// `*`
pub open spec fn lit_star() -> Seq<u8> {
    seq![42u8]
}


/// `?`
pub open spec fn lit_qmark() -> Seq<u8> {
    seq![63u8]
}

pub fn qmark_vec() -> (r: Vec<u8>)
    ensures
        r@ == lit_qmark(),
{
    let mut v: Vec<u8> = Vec::new();
    v.push(63);
    assert(v@ =~= lit_qmark());
    v
}

/// `-1`
pub open spec fn lit_neg_one() -> Seq<u8> {
    seq![45u8, 49u8]
}

pub fn neg_one_vec() -> (r: Vec<u8>)
    ensures
        r@ == lit_neg_one(),
{
    let mut v: Vec<u8> = Vec::new();
    v.push(45);
    v.push(49);
    assert(v@ =~= lit_neg_one());
    v
}

/// `PONG`
pub open spec fn lit_pong() -> Seq<u8> {
    seq![80u8, 79u8, 78u8, 71u8]
}

pub fn pong_vec() -> (r: Vec<u8>)
    ensures
        r@ == lit_pong(),
{
    let mut v: Vec<u8> = Vec::new();
    v.push(80);
    v.push(79);
    v.push(78);
    v.push(71);
    assert(v@ =~= lit_pong());
    v
}

/// `OK`
pub open spec fn lit_ok() -> Seq<u8> {
    seq![79u8, 75u8]
}

pub fn ok_vec() -> (r: Vec<u8>)
    ensures
        r@ == lit_ok(),
{
    let mut v: Vec<u8> = Vec::new();
    v.push(79);
    v.push(75);
    assert(v@ =~= lit_ok());
    v
}

/// `psync2`
pub open spec fn lit_psync2() -> Seq<u8> {
    seq![112u8, 115u8, 121u8, 110u8, 99u8, 50u8]
}

pub fn psync2_vec() -> (r: Vec<u8>)
    ensures
        r@ == lit_psync2(),
{
    let mut v: Vec<u8> = Vec::new();
    v.push(112);
    v.push(115);
    v.push(121);
    v.push(110);
    v.push(99);
    v.push(50);
    assert(v@ =~= lit_psync2());
    v
}

/// `REPLCONF`
pub open spec fn lit_replconf_up() -> Seq<u8> {
    seq![82u8, 69u8, 80u8, 76u8, 67u8, 79u8, 78u8, 70u8]
}

pub fn replconf_up_vec() -> (r: Vec<u8>)
    ensures
        r@ == lit_replconf_up(),
{
    let mut v: Vec<u8> = Vec::new();
    v.push(82);
    v.push(69);
    v.push(80);
    v.push(76);
    v.push(67);
    v.push(79);
    v.push(78);
    v.push(70);
    assert(v@ =~= lit_replconf_up());
    v
}

/// `PSYNC`
pub open spec fn lit_psync_up() -> Seq<u8> {
    seq![80u8, 83u8, 89u8, 78u8, 67u8]
}

pub fn psync_up_vec() -> (r: Vec<u8>)
    ensures
        r@ == lit_psync_up(),
{
    let mut v: Vec<u8> = Vec::new();
    v.push(80);
    v.push(83);
    v.push(89);
    v.push(78);
    v.push(67);
    assert(v@ =~= lit_psync_up());
    v
}

/// `PING`
pub open spec fn lit_ping_up() -> Seq<u8> {
    seq![80u8, 73u8, 78u8, 71u8]
}

pub fn ping_up_vec() -> (r: Vec<u8>)
    ensures
        r@ == lit_ping_up(),
{
    let mut v: Vec<u8> = Vec::new();
    v.push(80);
    v.push(73);
    v.push(78);
    v.push(71);
    assert(v@ =~= lit_ping_up());
    v
}

/// `role`
pub open spec fn lit_role() -> Seq<u8> {
    seq![114u8, 111u8, 108u8, 101u8]
}

pub fn role_vec() -> (r: Vec<u8>)
    ensures
        r@ == lit_role(),
{
    let mut v: Vec<u8> = Vec::new();
    v.push(114);
    v.push(111);
    v.push(108);
    v.push(101);
    assert(v@ =~= lit_role());
    v
}

/// `master`
pub open spec fn lit_master() -> Seq<u8> {
    seq![109u8, 97u8, 115u8, 116u8, 101u8, 114u8]
}

pub fn master_vec() -> (r: Vec<u8>)
    ensures
        r@ == lit_master(),
{
    let mut v: Vec<u8> = Vec::new();
    v.push(109);
    v.push(97);
    v.push(115);
    v.push(116);
    v.push(101);
    v.push(114);
    assert(v@ =~= lit_master());
    v
}

/// `slave`
pub open spec fn lit_slave() -> Seq<u8> {
    seq![115u8, 108u8, 97u8, 118u8, 101u8]
}

pub fn slave_vec() -> (r: Vec<u8>)
    ensures
        r@ == lit_slave(),
{
    let mut v: Vec<u8> = Vec::new();
    v.push(115);
    v.push(108);
    v.push(97);
    v.push(118);
    v.push(101);
    assert(v@ =~= lit_slave());
    v
}

/// `master_replid`
pub open spec fn lit_master_replid() -> Seq<u8> {
    seq![109u8, 97u8, 115u8, 116u8, 101u8, 114u8, 95u8, 114u8, 101u8, 112u8, 108u8, 105u8, 100u8]
}

pub fn master_replid_vec() -> (r: Vec<u8>)
    ensures
        r@ == lit_master_replid(),
{
    let mut v: Vec<u8> = Vec::new();
    v.push(109);
    v.push(97);
    v.push(115);
    v.push(116);
    v.push(101);
    v.push(114);
    v.push(95);
    v.push(114);
    v.push(101);
    v.push(112);
    v.push(108);
    v.push(105);
    v.push(100);
    assert(v@ =~= lit_master_replid());
    v
}

/// `master_repl_offset`
pub open spec fn lit_master_repl_offset() -> Seq<u8> {
    seq![109u8, 97u8, 115u8, 116u8, 101u8, 114u8, 95u8, 114u8, 101u8, 112u8, 108u8, 95u8, 111u8, 102u8, 102u8, 115u8, 101u8, 116u8]
}

pub fn master_repl_offset_vec() -> (r: Vec<u8>)
    ensures
        r@ == lit_master_repl_offset(),
{
    let mut v: Vec<u8> = Vec::new();
    v.push(109);
    v.push(97);
    v.push(115);
    v.push(116);
    v.push(101);
    v.push(114);
    v.push(95);
    v.push(114);
    v.push(101);
    v.push(112);
    v.push(108);
    v.push(95);
    v.push(111);
    v.push(102);
    v.push(102);
    v.push(115);
    v.push(101);
    v.push(116);
    assert(v@ =~= lit_master_repl_offset());
    v
}

/// `replication`
pub open spec fn lit_replication() -> Seq<u8> {
    seq![114u8, 101u8, 112u8, 108u8, 105u8, 99u8, 97u8, 116u8, 105u8, 111u8, 110u8]
}

pub fn replication_vec() -> (r: Vec<u8>)
    ensures
        r@ == lit_replication(),
{
    let mut v: Vec<u8> = Vec::new();
    v.push(114);
    v.push(101);
    v.push(112);
    v.push(108);
    v.push(105);
    v.push(99);
    v.push(97);
    v.push(116);
    v.push(105);
    v.push(111);
    v.push(110);
    assert(v@ =~= lit_replication());
    v
}

/// `ERR unknown command`
pub open spec fn lit_err_unknown_command() -> Seq<u8> {
    seq![69u8, 82u8, 82u8, 32u8, 117u8, 110u8, 107u8, 110u8, 111u8, 119u8, 110u8, 32u8, 99u8, 111u8, 109u8, 109u8, 97u8, 110u8, 100u8]
}

pub fn err_unknown_command_vec() -> (r: Vec<u8>)
    ensures
        r@ == lit_err_unknown_command(),
{
    let mut v: Vec<u8> = Vec::new();
    v.push(69);
    v.push(82);
    v.push(82);
    v.push(32);
    v.push(117);
    v.push(110);
    v.push(107);
    v.push(110);
    v.push(111);
    v.push(119);
    v.push(110);
    v.push(32);
    v.push(99);
    v.push(111);
    v.push(109);
    v.push(109);
    v.push(97);
    v.push(110);
    v.push(100);
    assert(v@ =~= lit_err_unknown_command());
    v
}

/// `ERR wrong number of arguments`
pub open spec fn lit_err_wrong_arity() -> Seq<u8> {
    seq![69u8, 82u8, 82u8, 32u8, 119u8, 114u8, 111u8, 110u8, 103u8, 32u8, 110u8, 117u8, 109u8, 98u8, 101u8, 114u8, 32u8, 111u8, 102u8, 32u8, 97u8, 114u8, 103u8, 117u8, 109u8, 101u8, 110u8, 116u8, 115u8]
}

pub fn err_wrong_arity_vec() -> (r: Vec<u8>)
    ensures
        r@ == lit_err_wrong_arity(),
{
    let mut v: Vec<u8> = Vec::new();
    v.push(69);
    v.push(82);
    v.push(82);
    v.push(32);
    v.push(119);
    v.push(114);
    v.push(111);
    v.push(110);
    v.push(103);
    v.push(32);
    v.push(110);
    v.push(117);
    v.push(109);
    v.push(98);
    v.push(101);
    v.push(114);
    v.push(32);
    v.push(111);
    v.push(102);
    v.push(32);
    v.push(97);
    v.push(114);
    v.push(103);
    v.push(117);
    v.push(109);
    v.push(101);
    v.push(110);
    v.push(116);
    v.push(115);
    assert(v@ =~= lit_err_wrong_arity());
    v
}

/// `ERR unknown CONFIG parameter`
pub open spec fn lit_err_unknown_config() -> Seq<u8> {
    seq![69u8, 82u8, 82u8, 32u8, 117u8, 110u8, 107u8, 110u8, 111u8, 119u8, 110u8, 32u8, 67u8, 79u8, 78u8, 70u8, 73u8, 71u8, 32u8, 112u8, 97u8, 114u8, 97u8, 109u8, 101u8, 116u8, 101u8, 114u8]
}

pub fn err_unknown_config_vec() -> (r: Vec<u8>)
    ensures
        r@ == lit_err_unknown_config(),
{
    let mut v: Vec<u8> = Vec::new();
    v.push(69);
    v.push(82);
    v.push(82);
    v.push(32);
    v.push(117);
    v.push(110);
    v.push(107);
    v.push(110);
    v.push(111);
    v.push(119);
    v.push(110);
    v.push(32);
    v.push(67);
    v.push(79);
    v.push(78);
    v.push(70);
    v.push(73);
    v.push(71);
    v.push(32);
    v.push(112);
    v.push(97);
    v.push(114);
    v.push(97);
    v.push(109);
    v.push(101);
    v.push(116);
    v.push(101);
    v.push(114);
    assert(v@ =~= lit_err_unknown_config());
    v
}

/// `ERR unknown REPLCONF argument`
pub open spec fn lit_err_unknown_replconf() -> Seq<u8> {
    seq![69u8, 82u8, 82u8, 32u8, 117u8, 110u8, 107u8, 110u8, 111u8, 119u8, 110u8, 32u8, 82u8, 69u8, 80u8, 76u8, 67u8, 79u8, 78u8, 70u8, 32u8, 97u8, 114u8, 103u8, 117u8, 109u8, 101u8, 110u8, 116u8]
}

pub fn err_unknown_replconf_vec() -> (r: Vec<u8>)
    ensures
        r@ == lit_err_unknown_replconf(),
{
    let mut v: Vec<u8> = Vec::new();
    v.push(69);
    v.push(82);
    v.push(82);
    v.push(32);
    v.push(117);
    v.push(110);
    v.push(107);
    v.push(110);
    v.push(111);
    v.push(119);
    v.push(110);
    v.push(32);
    v.push(82);
    v.push(69);
    v.push(80);
    v.push(76);
    v.push(67);
    v.push(79);
    v.push(78);
    v.push(70);
    v.push(32);
    v.push(97);
    v.push(114);
    v.push(103);
    v.push(117);
    v.push(109);
    v.push(101);
    v.push(110);
    v.push(116);
    assert(v@ =~= lit_err_unknown_replconf());
    v
}

/// `ERR unsupported PSYNC request`
pub open spec fn lit_err_bad_psync() -> Seq<u8> {
    seq![69u8, 82u8, 82u8, 32u8, 117u8, 110u8, 115u8, 117u8, 112u8, 112u8, 111u8, 114u8, 116u8, 101u8, 100u8, 32u8, 80u8, 83u8, 89u8, 78u8, 67u8, 32u8, 114u8, 101u8, 113u8, 117u8, 101u8, 115u8, 116u8]
}

pub fn err_bad_psync_vec() -> (r: Vec<u8>)
    ensures
        r@ == lit_err_bad_psync(),
{
    let mut v: Vec<u8> = Vec::new();
    v.push(69);
    v.push(82);
    v.push(82);
    v.push(32);
    v.push(117);
    v.push(110);
    v.push(115);
    v.push(117);
    v.push(112);
    v.push(112);
    v.push(111);
    v.push(114);
    v.push(116);
    v.push(101);
    v.push(100);
    v.push(32);
    v.push(80);
    v.push(83);
    v.push(89);
    v.push(78);
    v.push(67);
    v.push(32);
    v.push(114);
    v.push(101);
    v.push(113);
    v.push(117);
    v.push(101);
    v.push(115);
    v.push(116);
    assert(v@ =~= lit_err_bad_psync());
    v
}

/// `ERR invalid expire time`
pub open spec fn lit_err_bad_expire() -> Seq<u8> {
    seq![69u8, 82u8, 82u8, 32u8, 105u8, 110u8, 118u8, 97u8, 108u8, 105u8, 100u8, 32u8, 101u8, 120u8, 112u8, 105u8, 114u8, 101u8, 32u8, 116u8, 105u8, 109u8, 101u8]
}

pub fn err_bad_expire_vec() -> (r: Vec<u8>)
    ensures
        r@ == lit_err_bad_expire(),
{
    let mut v: Vec<u8> = Vec::new();
    v.push(69);
    v.push(82);
    v.push(82);
    v.push(32);
    v.push(105);
    v.push(110);
    v.push(118);
    v.push(97);
    v.push(108);
    v.push(105);
    v.push(100);
    v.push(32);
    v.push(101);
    v.push(120);
    v.push(112);
    v.push(105);
    v.push(114);
    v.push(101);
    v.push(32);
    v.push(116);
    v.push(105);
    v.push(109);
    v.push(101);
    assert(v@ =~= lit_err_bad_expire());
    v
}

/// `ERR syntax error`
pub open spec fn lit_err_bad_set_suffix() -> Seq<u8> {
    seq![69u8, 82u8, 82u8, 32u8, 115u8, 121u8, 110u8, 116u8, 97u8, 120u8, 32u8, 101u8, 114u8, 114u8, 111u8, 114u8]
}

pub fn err_bad_set_suffix_vec() -> (r: Vec<u8>)
    ensures
        r@ == lit_err_bad_set_suffix(),
{
    let mut v: Vec<u8> = Vec::new();
    v.push(69);
    v.push(82);
    v.push(82);
    v.push(32);
    v.push(115);
    v.push(121);
    v.push(110);
    v.push(116);
    v.push(97);
    v.push(120);
    v.push(32);
    v.push(101);
    v.push(114);
    v.push(114);
    v.push(111);
    v.push(114);
    assert(v@ =~= lit_err_bad_set_suffix());
    v
}

/// `FULLRESYNC `
pub open spec fn lit_fullresync_prefix() -> Seq<u8> {
    seq![70u8, 85u8, 76u8, 76u8, 82u8, 69u8, 83u8, 89u8, 78u8, 67u8, 32u8]
}

pub fn fullresync_prefix_vec() -> (r: Vec<u8>)
    ensures
        r@ == lit_fullresync_prefix(),
{
    let mut v: Vec<u8> = Vec::new();
    v.push(70);
    v.push(85);
    v.push(76);
    v.push(76);
    v.push(82);
    v.push(69);
    v.push(83);
    v.push(89);
    v.push(78);
    v.push(67);
    v.push(32);
    assert(v@ =~= lit_fullresync_prefix());
    v
}

/// `# `
pub open spec fn lit_section_hash() -> Seq<u8> {
    seq![35u8, 32u8]
}


/// `:`
pub open spec fn lit_colon() -> Seq<u8> {
    seq![58u8]
}


} // verus!
