use bittorrent::bitfield::BitField;
use bittorrent::client::Client;
use bittorrent::piece::{piece_offset, ActivePiece};
use bittorrent::piece_assembler::PieceValidator;
use bittorrent::piece_picker::{PickerInput, PieceEvent, PiecePicker};
use bittorrent::torrent::{
    all_done, mark_done, pick_can_run, pick_piece, release_piece, torrent_pieces, PieceState,
};
use bittorrent::torrent_session::{session_outcome, SessionError, TorrentEvent};

const HASH_ABC: [u8; 20] = [
    0xa9, 0x99, 0x3e, 0x36, 0x47, 0x06, 0x81, 0x6a, 0xba, 0x3e, 0x25, 0x71, 0x78, 0x50, 0xc2, 0x6c, 0x9c, 0xd0,
    0xd8, 0x9d,
];

#[test]
fn picker_claims_first_missing_piece_the_peer_has() {
    let mut picker = PiecePicker::new(4);
    let peer = BitField::new(vec![0b0110_0000], 4);
    assert_eq!(picker.claim_piece(&peer), Some(1));
    assert_eq!(picker.claim_piece(&peer), Some(2));
    assert_eq!(picker.claim_piece(&peer), None);
    picker.mark_as_failed(1);
    assert_eq!(picker.claim_piece(&peer), Some(1));
    assert!(!picker.is_finished());
}

#[test]
fn picker_events_and_finish() {
    let mut picker = PiecePicker::new(2);
    let all = BitField::new(vec![0b1100_0000], 2);
    assert_eq!(picker.claim_piece(&all), Some(0));
    assert_eq!(picker.claim_piece(&all), Some(1));
    picker.handle_event(&PieceEvent::HashMismatch { piece_index: 0 });
    assert_eq!(picker.claim_piece(&all), Some(0));
    picker.handle_event(&PieceEvent::DownloadFailed { piece_index: 0 });
    assert_eq!(picker.claim_piece(&all), Some(0));
    picker.handle_event(&PieceEvent::Completed { piece_index: 0 });
    picker.handle_event(&PieceEvent::Completed { piece_index: 1 });
    assert!(picker.is_finished());
    assert_eq!(picker.claim_piece(&all), None);
    assert!(PiecePicker::new(0).is_finished());
}

#[test]
fn piece_verify_uses_sha1() {
    let hash_abc = HASH_ABC;
    let p = ActivePiece { index: 0, length: 3, data: b"abc".to_vec() };
    assert!(p.verify(&hash_abc));
    let q = ActivePiece { index: 0, length: 3, data: b"abd".to_vec() };
    assert!(!q.verify(&hash_abc));
}

#[test]
fn torrent_pieces_layout_and_pick() {
    let mut pieces = torrent_pieces(40000, 32768, 2);
    assert_eq!(pieces[0].length, 32768);
    assert_eq!(pieces[1].length, 7232);
    assert_eq!(pieces[1].index, 1);
    let peer = BitField::new(vec![0b0100_0000], 2);
    assert_eq!(pick_piece(&mut pieces, &peer), Some(1));
    assert!(matches!(pieces[1].state, PieceState::InProgress));
    assert_eq!(pick_piece(&mut pieces, &peer), None);
    assert!(!all_done(&pieces));
    pieces[0].state = PieceState::Done;
    pieces[1].state = PieceState::Done;
    assert!(all_done(&pieces));
}

#[test]
fn client_announces_port_12345() {
    let c = Client::new();
    assert_eq!(c.port, 12345);
    assert_eq!(c.peer_id.len(), 20);
}

#[test]
fn picker_claim_can_run_checks_bitfield_bytes() {
    let picker = PiecePicker::new(10);
    // Ten pieces announced but only one byte: piece 8 cannot be looked up.
    let short = BitField::new(vec![0b0000_0000], 10);
    assert!(!picker.claim_can_run(&short));
    // A piece found before the missing byte is reached.
    let early = BitField::new(vec![0b0010_0000], 10);
    assert!(picker.claim_can_run(&early));
    let full = BitField::new(vec![0, 0], 10);
    assert!(picker.claim_can_run(&full));
    // A bitfield that claims fewer pieces than the picker holds is read no further.
    let fewer = BitField::new(vec![], 0);
    assert!(picker.claim_can_run(&fewer));
}

#[test]
fn pick_can_run_checks_bitfield_bytes() {
    let pieces = torrent_pieces(100, 10, 10);
    assert!(!pick_can_run(&pieces, &BitField::new(vec![0], 10)));
    assert!(pick_can_run(&pieces, &BitField::new(vec![1], 10)));
    assert!(pick_can_run(&pieces, &BitField::new(vec![0, 0], 10)));
}

#[test]
fn piece_offsets() {
    assert_eq!(piece_offset(0, 16384), 0);
    assert_eq!(piece_offset(3, 16384), 49152);
    assert_eq!(piece_offset(100_000, 262_144), 26_214_400_000);
}

#[test]
fn validator_completes_matching_piece_and_reports_mismatch() {
    let v = PieceValidator::new(vec![[0u8; 20], HASH_ABC]);
    let good = ActivePiece { index: 1, length: 3, data: b"abc".to_vec() };
    match v.validate(good) {
        Ok(c) => {
            assert_eq!(c.index, 1);
            assert_eq!(c.data, b"abc".to_vec());
        }
        Err(e) => panic!("unexpected {:?}", e),
    }
    let bad = ActivePiece { index: 0, length: 3, data: b"abc".to_vec() };
    match v.validate(bad) {
        Err(PieceEvent::HashMismatch { piece_index }) => assert_eq!(piece_index, 0),
        other => panic!("unexpected {:?}", other),
    }
}

#[test]
fn session_outcomes() {
    assert_eq!(session_outcome(Some(TorrentEvent::Completed)), Ok(()));
    assert_eq!(session_outcome(None), Err(SessionError::RanOutOfPeers));
}

#[test]
fn release_and_mark_done() {
    let mut pieces = torrent_pieces(30, 10, 3);
    let peer = BitField::new(vec![0b1110_0000], 3);
    assert_eq!(pick_piece(&mut pieces, &peer), Some(0));
    release_piece(&mut pieces, 0);
    assert!(matches!(pieces[0].state, PieceState::Missing));
    assert_eq!(pieces[0].length, 10);
    assert_eq!(pick_piece(&mut pieces, &peer), Some(0));
    mark_done(&mut pieces, 0);
    assert!(matches!(pieces[0].state, PieceState::Done));
    assert_eq!(pick_piece(&mut pieces, &peer), Some(1));
    assert!(!all_done(&pieces));
}

#[test]
fn picker_inputs_in_turn() {
    let mut picker = PiecePicker::new(3);
    let all = BitField::new(vec![0b1110_0000], 3);
    assert_eq!(picker.handle_input(&PickerInput::Request(all.clone())), Some(Some(0)));
    assert_eq!(picker.handle_input(&PickerInput::Request(all.clone())), Some(Some(1)));
    assert_eq!(picker.handle_input(&PickerInput::Event(PieceEvent::DownloadFailed { piece_index: 0 })), None);
    assert_eq!(picker.handle_input(&PickerInput::Request(all.clone())), Some(Some(0)));
    for i in 0..3 {
        if i == 2 {
            assert_eq!(picker.handle_input(&PickerInput::Request(all.clone())), Some(Some(2)));
        }
        picker.handle_input(&PickerInput::Event(PieceEvent::Completed { piece_index: i }));
    }
    assert!(picker.is_finished());
    assert_eq!(picker.handle_input(&PickerInput::Request(all)), Some(None));
}
