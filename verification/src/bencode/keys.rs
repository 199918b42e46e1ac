//! The dictionary keys of `.torrent` files and tracker responses, as bytes.

use vstd::prelude::*;

verus! {

/// The key `announce`.
pub open spec fn key_announce() -> Seq<u8> {
    seq![97u8, 110, 110, 111, 117, 110, 99, 101]
}

pub fn announce_key() -> (res: Vec<u8>)
    ensures
        res@ == key_announce(),
{
    let res: Vec<u8> = vec![97u8, 110, 110, 111, 117, 110, 99, 101];
    assert(res@ =~= key_announce());
    res
}

/// The key `announce-list`.
pub open spec fn key_announce_list() -> Seq<u8> {
    seq![97u8, 110, 110, 111, 117, 110, 99, 101, 45, 108, 105, 115, 116]
}

pub fn announce_list_key() -> (res: Vec<u8>)
    ensures
        res@ == key_announce_list(),
{
    let res: Vec<u8> = vec![97u8, 110, 110, 111, 117, 110, 99, 101, 45, 108, 105, 115, 116];
    assert(res@ =~= key_announce_list());
    res
}

/// The key `comment`.
pub open spec fn key_comment() -> Seq<u8> {
    seq![99u8, 111, 109, 109, 101, 110, 116]
}

pub fn comment_key() -> (res: Vec<u8>)
    ensures
        res@ == key_comment(),
{
    let res: Vec<u8> = vec![99u8, 111, 109, 109, 101, 110, 116];
    assert(res@ =~= key_comment());
    res
}

/// The key `created by`.
pub open spec fn key_created_by() -> Seq<u8> {
    seq![99u8, 114, 101, 97, 116, 101, 100, 32, 98, 121]
}

pub fn created_by_key() -> (res: Vec<u8>)
    ensures
        res@ == key_created_by(),
{
    let res: Vec<u8> = vec![99u8, 114, 101, 97, 116, 101, 100, 32, 98, 121];
    assert(res@ =~= key_created_by());
    res
}

/// The key `creation date`.
pub open spec fn key_creation_date() -> Seq<u8> {
    seq![99u8, 114, 101, 97, 116, 105, 111, 110, 32, 100, 97, 116, 101]
}

pub fn creation_date_key() -> (res: Vec<u8>)
    ensures
        res@ == key_creation_date(),
{
    let res: Vec<u8> = vec![99u8, 114, 101, 97, 116, 105, 111, 110, 32, 100, 97, 116, 101];
    assert(res@ =~= key_creation_date());
    res
}

/// The key `info`.
pub open spec fn key_info() -> Seq<u8> {
    seq![105u8, 110, 102, 111]
}

pub fn info_key() -> (res: Vec<u8>)
    ensures
        res@ == key_info(),
{
    let res: Vec<u8> = vec![105u8, 110, 102, 111];
    assert(res@ =~= key_info());
    res
}

/// The key `name`.
pub open spec fn key_name() -> Seq<u8> {
    seq![110u8, 97, 109, 101]
}

pub fn name_key() -> (res: Vec<u8>)
    ensures
        res@ == key_name(),
{
    let res: Vec<u8> = vec![110u8, 97, 109, 101];
    assert(res@ =~= key_name());
    res
}

/// The key `length`.
pub open spec fn key_length() -> Seq<u8> {
    seq![108u8, 101, 110, 103, 116, 104]
}

pub fn length_key() -> (res: Vec<u8>)
    ensures
        res@ == key_length(),
{
    let res: Vec<u8> = vec![108u8, 101, 110, 103, 116, 104];
    assert(res@ =~= key_length());
    res
}

/// The key `piece length`.
pub open spec fn key_piece_length() -> Seq<u8> {
    seq![112u8, 105, 101, 99, 101, 32, 108, 101, 110, 103, 116, 104]
}

pub fn piece_length_key() -> (res: Vec<u8>)
    ensures
        res@ == key_piece_length(),
{
    let res: Vec<u8> = vec![112u8, 105, 101, 99, 101, 32, 108, 101, 110, 103, 116, 104];
    assert(res@ =~= key_piece_length());
    res
}

/// The key `pieces`.
pub open spec fn key_pieces() -> Seq<u8> {
    seq![112u8, 105, 101, 99, 101, 115]
}

pub fn pieces_key() -> (res: Vec<u8>)
    ensures
        res@ == key_pieces(),
{
    let res: Vec<u8> = vec![112u8, 105, 101, 99, 101, 115];
    assert(res@ =~= key_pieces());
    res
}

/// The key `interval`.
pub open spec fn key_interval() -> Seq<u8> {
    seq![105u8, 110, 116, 101, 114, 118, 97, 108]
}

pub fn interval_key() -> (res: Vec<u8>)
    ensures
        res@ == key_interval(),
{
    let res: Vec<u8> = vec![105u8, 110, 116, 101, 114, 118, 97, 108];
    assert(res@ =~= key_interval());
    res
}

/// The key `peers`.
pub open spec fn key_peers() -> Seq<u8> {
    seq![112u8, 101, 101, 114, 115]
}

pub fn peers_key() -> (res: Vec<u8>)
    ensures
        res@ == key_peers(),
{
    let res: Vec<u8> = vec![112u8, 101, 101, 114, 115];
    assert(res@ =~= key_peers());
    res
}

} // verus!
