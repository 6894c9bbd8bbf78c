use vstd::prelude::*;

verus! {

pub open spec fn kw_ping() -> Seq<u8> {
    seq![80u8, 73u8, 78u8, 71u8]
}

pub fn word_ping() -> (r: Vec<u8>)
    ensures
        r@ == kw_ping(),
{
    let r = vec![80u8, 73u8, 78u8, 71u8];
    assert(r@ =~= kw_ping());
    r
}

pub open spec fn kw_echo() -> Seq<u8> {
    seq![69u8, 67u8, 72u8, 79u8]
}

pub fn word_echo() -> (r: Vec<u8>)
    ensures
        r@ == kw_echo(),
{
    let r = vec![69u8, 67u8, 72u8, 79u8];
    assert(r@ =~= kw_echo());
    r
}

pub open spec fn kw_get() -> Seq<u8> {
    seq![71u8, 69u8, 84u8]
}

pub fn word_get() -> (r: Vec<u8>)
    ensures
        r@ == kw_get(),
{
    let r = vec![71u8, 69u8, 84u8];
    assert(r@ =~= kw_get());
    r
}

pub open spec fn kw_set() -> Seq<u8> {
    seq![83u8, 69u8, 84u8]
}

pub fn word_set() -> (r: Vec<u8>)
    ensures
        r@ == kw_set(),
{
    let r = vec![83u8, 69u8, 84u8];
    assert(r@ =~= kw_set());
    r
}

pub open spec fn kw_px() -> Seq<u8> {
    seq![80u8, 88u8]
}

pub fn word_px() -> (r: Vec<u8>)
    ensures
        r@ == kw_px(),
{
    let r = vec![80u8, 88u8];
    assert(r@ =~= kw_px());
    r
}

pub open spec fn kw_config() -> Seq<u8> {
    seq![67u8, 79u8, 78u8, 70u8, 73u8, 71u8]
}

pub fn word_config() -> (r: Vec<u8>)
    ensures
        r@ == kw_config(),
{
    let r = vec![67u8, 79u8, 78u8, 70u8, 73u8, 71u8];
    assert(r@ =~= kw_config());
    r
}

pub open spec fn kw_keys() -> Seq<u8> {
    seq![75u8, 69u8, 89u8, 83u8]
}

pub fn word_keys() -> (r: Vec<u8>)
    ensures
        r@ == kw_keys(),
{
    let r = vec![75u8, 69u8, 89u8, 83u8];
    assert(r@ =~= kw_keys());
    r
}

pub open spec fn kw_info() -> Seq<u8> {
    seq![73u8, 78u8, 70u8, 79u8]
}

pub fn word_info() -> (r: Vec<u8>)
    ensures
        r@ == kw_info(),
{
    let r = vec![73u8, 78u8, 70u8, 79u8];
    assert(r@ =~= kw_info());
    r
}

pub open spec fn kw_replication() -> Seq<u8> {
    seq![82u8, 69u8, 80u8, 76u8, 73u8, 67u8, 65u8, 84u8, 73u8, 79u8, 78u8]
}

pub fn word_replication() -> (r: Vec<u8>)
    ensures
        r@ == kw_replication(),
{
    let r = vec![82u8, 69u8, 80u8, 76u8, 73u8, 67u8, 65u8, 84u8, 73u8, 79u8, 78u8];
    assert(r@ =~= kw_replication());
    r
}

pub open spec fn kw_psync() -> Seq<u8> {
    seq![80u8, 83u8, 89u8, 78u8, 67u8]
}

pub fn word_psync() -> (r: Vec<u8>)
    ensures
        r@ == kw_psync(),
{
    let r = vec![80u8, 83u8, 89u8, 78u8, 67u8];
    assert(r@ =~= kw_psync());
    r
}

pub open spec fn kw_replconf() -> Seq<u8> {
    seq![82u8, 69u8, 80u8, 76u8, 67u8, 79u8, 78u8, 70u8]
}

pub fn word_replconf() -> (r: Vec<u8>)
    ensures
        r@ == kw_replconf(),
{
    let r = vec![82u8, 69u8, 80u8, 76u8, 67u8, 79u8, 78u8, 70u8];
    assert(r@ =~= kw_replconf());
    r
}

pub open spec fn kw_getack() -> Seq<u8> {
    seq![71u8, 69u8, 84u8, 65u8, 67u8, 75u8]
}

pub fn word_getack() -> (r: Vec<u8>)
    ensures
        r@ == kw_getack(),
{
    let r = vec![71u8, 69u8, 84u8, 65u8, 67u8, 75u8];
    assert(r@ =~= kw_getack());
    r
}

pub open spec fn kw_ack() -> Seq<u8> {
    seq![65u8, 67u8, 75u8]
}

pub fn word_ack() -> (r: Vec<u8>)
    ensures
        r@ == kw_ack(),
{
    let r = vec![65u8, 67u8, 75u8];
    assert(r@ =~= kw_ack());
    r
}

pub open spec fn kw_wait() -> Seq<u8> {
    seq![87u8, 65u8, 73u8, 84u8]
}

pub fn word_wait() -> (r: Vec<u8>)
    ensures
        r@ == kw_wait(),
{
    let r = vec![87u8, 65u8, 73u8, 84u8];
    assert(r@ =~= kw_wait());
    r
}

pub open spec fn kw_type() -> Seq<u8> {
    seq![84u8, 89u8, 80u8, 69u8]
}

pub fn word_type() -> (r: Vec<u8>)
    ensures
        r@ == kw_type(),
{
    let r = vec![84u8, 89u8, 80u8, 69u8];
    assert(r@ =~= kw_type());
    r
}

pub open spec fn kw_xadd() -> Seq<u8> {
    seq![88u8, 65u8, 68u8, 68u8]
}

pub fn word_xadd() -> (r: Vec<u8>)
    ensures
        r@ == kw_xadd(),
{
    let r = vec![88u8, 65u8, 68u8, 68u8];
    assert(r@ =~= kw_xadd());
    r
}

pub open spec fn kw_xrange() -> Seq<u8> {
    seq![88u8, 82u8, 65u8, 78u8, 71u8, 69u8]
}

pub fn word_xrange() -> (r: Vec<u8>)
    ensures
        r@ == kw_xrange(),
{
    let r = vec![88u8, 82u8, 65u8, 78u8, 71u8, 69u8];
    assert(r@ =~= kw_xrange());
    r
}

pub open spec fn kw_xread() -> Seq<u8> {
    seq![88u8, 82u8, 69u8, 65u8, 68u8]
}

pub fn word_xread() -> (r: Vec<u8>)
    ensures
        r@ == kw_xread(),
{
    let r = vec![88u8, 82u8, 69u8, 65u8, 68u8];
    assert(r@ =~= kw_xread());
    r
}

pub open spec fn kw_block() -> Seq<u8> {
    seq![66u8, 76u8, 79u8, 67u8, 75u8]
}

pub fn word_block() -> (r: Vec<u8>)
    ensures
        r@ == kw_block(),
{
    let r = vec![66u8, 76u8, 79u8, 67u8, 75u8];
    assert(r@ =~= kw_block());
    r
}

pub open spec fn kw_incr() -> Seq<u8> {
    seq![73u8, 78u8, 67u8, 82u8]
}

pub fn word_incr() -> (r: Vec<u8>)
    ensures
        r@ == kw_incr(),
{
    let r = vec![73u8, 78u8, 67u8, 82u8];
    assert(r@ =~= kw_incr());
    r
}

pub open spec fn kw_multi() -> Seq<u8> {
    seq![77u8, 85u8, 76u8, 84u8, 73u8]
}

pub fn word_multi() -> (r: Vec<u8>)
    ensures
        r@ == kw_multi(),
{
    let r = vec![77u8, 85u8, 76u8, 84u8, 73u8];
    assert(r@ =~= kw_multi());
    r
}

pub open spec fn kw_exec() -> Seq<u8> {
    seq![69u8, 88u8, 69u8, 67u8]
}

pub fn word_exec() -> (r: Vec<u8>)
    ensures
        r@ == kw_exec(),
{
    let r = vec![69u8, 88u8, 69u8, 67u8];
    assert(r@ =~= kw_exec());
    r
}

pub open spec fn kw_discard() -> Seq<u8> {
    seq![68u8, 73u8, 83u8, 67u8, 65u8, 82u8, 68u8]
}

pub fn word_discard() -> (r: Vec<u8>)
    ensures
        r@ == kw_discard(),
{
    let r = vec![68u8, 73u8, 83u8, 67u8, 65u8, 82u8, 68u8];
    assert(r@ =~= kw_discard());
    r
}

pub open spec fn kw_rpush() -> Seq<u8> {
    seq![82u8, 80u8, 85u8, 83u8, 72u8]
}

pub fn word_rpush() -> (r: Vec<u8>)
    ensures
        r@ == kw_rpush(),
{
    let r = vec![82u8, 80u8, 85u8, 83u8, 72u8];
    assert(r@ =~= kw_rpush());
    r
}

pub open spec fn kw_lpush() -> Seq<u8> {
    seq![76u8, 80u8, 85u8, 83u8, 72u8]
}

pub fn word_lpush() -> (r: Vec<u8>)
    ensures
        r@ == kw_lpush(),
{
    let r = vec![76u8, 80u8, 85u8, 83u8, 72u8];
    assert(r@ =~= kw_lpush());
    r
}

pub open spec fn kw_lrange() -> Seq<u8> {
    seq![76u8, 82u8, 65u8, 78u8, 71u8, 69u8]
}

pub fn word_lrange() -> (r: Vec<u8>)
    ensures
        r@ == kw_lrange(),
{
    let r = vec![76u8, 82u8, 65u8, 78u8, 71u8, 69u8];
    assert(r@ =~= kw_lrange());
    r
}

pub open spec fn kw_llen() -> Seq<u8> {
    seq![76u8, 76u8, 69u8, 78u8]
}

pub fn word_llen() -> (r: Vec<u8>)
    ensures
        r@ == kw_llen(),
{
    let r = vec![76u8, 76u8, 69u8, 78u8];
    assert(r@ =~= kw_llen());
    r
}

pub open spec fn kw_lpop() -> Seq<u8> {
    seq![76u8, 80u8, 79u8, 80u8]
}

pub fn word_lpop() -> (r: Vec<u8>)
    ensures
        r@ == kw_lpop(),
{
    let r = vec![76u8, 80u8, 79u8, 80u8];
    assert(r@ =~= kw_lpop());
    r
}

pub open spec fn kw_blpop() -> Seq<u8> {
    seq![66u8, 76u8, 80u8, 79u8, 80u8]
}

pub fn word_blpop() -> (r: Vec<u8>)
    ensures
        r@ == kw_blpop(),
{
    let r = vec![66u8, 76u8, 80u8, 79u8, 80u8];
    assert(r@ =~= kw_blpop());
    r
}

pub open spec fn kw_subscribe() -> Seq<u8> {
    seq![83u8, 85u8, 66u8, 83u8, 67u8, 82u8, 73u8, 66u8, 69u8]
}

pub fn word_subscribe() -> (r: Vec<u8>)
    ensures
        r@ == kw_subscribe(),
{
    let r = vec![83u8, 85u8, 66u8, 83u8, 67u8, 82u8, 73u8, 66u8, 69u8];
    assert(r@ =~= kw_subscribe());
    r
}

pub open spec fn kw_unsubscribe() -> Seq<u8> {
    seq![85u8, 78u8, 83u8, 85u8, 66u8, 83u8, 67u8, 82u8, 73u8, 66u8, 69u8]
}

pub fn word_unsubscribe() -> (r: Vec<u8>)
    ensures
        r@ == kw_unsubscribe(),
{
    let r = vec![85u8, 78u8, 83u8, 85u8, 66u8, 83u8, 67u8, 82u8, 73u8, 66u8, 69u8];
    assert(r@ =~= kw_unsubscribe());
    r
}

pub open spec fn kw_publish() -> Seq<u8> {
    seq![80u8, 85u8, 66u8, 76u8, 73u8, 83u8, 72u8]
}

pub fn word_publish() -> (r: Vec<u8>)
    ensures
        r@ == kw_publish(),
{
    let r = vec![80u8, 85u8, 66u8, 76u8, 73u8, 83u8, 72u8];
    assert(r@ =~= kw_publish());
    r
}

pub open spec fn kw_zadd() -> Seq<u8> {
    seq![90u8, 65u8, 68u8, 68u8]
}

pub fn word_zadd() -> (r: Vec<u8>)
    ensures
        r@ == kw_zadd(),
{
    let r = vec![90u8, 65u8, 68u8, 68u8];
    assert(r@ =~= kw_zadd());
    r
}

pub open spec fn kw_zrank() -> Seq<u8> {
    seq![90u8, 82u8, 65u8, 78u8, 75u8]
}

pub fn word_zrank() -> (r: Vec<u8>)
    ensures
        r@ == kw_zrank(),
{
    let r = vec![90u8, 82u8, 65u8, 78u8, 75u8];
    assert(r@ =~= kw_zrank());
    r
}

pub open spec fn kw_zrange() -> Seq<u8> {
    seq![90u8, 82u8, 65u8, 78u8, 71u8, 69u8]
}

pub fn word_zrange() -> (r: Vec<u8>)
    ensures
        r@ == kw_zrange(),
{
    let r = vec![90u8, 82u8, 65u8, 78u8, 71u8, 69u8];
    assert(r@ =~= kw_zrange());
    r
}

pub open spec fn kw_zscore() -> Seq<u8> {
    seq![90u8, 83u8, 67u8, 79u8, 82u8, 69u8]
}

pub fn word_zscore() -> (r: Vec<u8>)
    ensures
        r@ == kw_zscore(),
{
    let r = vec![90u8, 83u8, 67u8, 79u8, 82u8, 69u8];
    assert(r@ =~= kw_zscore());
    r
}

pub open spec fn kw_zcard() -> Seq<u8> {
    seq![90u8, 67u8, 65u8, 82u8, 68u8]
}

pub fn word_zcard() -> (r: Vec<u8>)
    ensures
        r@ == kw_zcard(),
{
    let r = vec![90u8, 67u8, 65u8, 82u8, 68u8];
    assert(r@ =~= kw_zcard());
    r
}

pub open spec fn kw_zrem() -> Seq<u8> {
    seq![90u8, 82u8, 69u8, 77u8]
}

pub fn word_zrem() -> (r: Vec<u8>)
    ensures
        r@ == kw_zrem(),
{
    let r = vec![90u8, 82u8, 69u8, 77u8];
    assert(r@ =~= kw_zrem());
    r
}

pub open spec fn kw_quit() -> Seq<u8> {
    seq![81u8, 85u8, 73u8, 84u8]
}

pub fn word_quit() -> (r: Vec<u8>)
    ensures
        r@ == kw_quit(),
{
    let r = vec![81u8, 85u8, 73u8, 84u8];
    assert(r@ =~= kw_quit());
    r
}

} // verus!
