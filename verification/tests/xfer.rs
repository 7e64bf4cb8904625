//! Handing files over.
use ember_net::ember::xfer::{
    xfer_block_count, BlockWrite, RecvState, SendState, OFFER_GRACE_SECS, XFER_BLOCK_SIZE,
    XFER_BLOCK_TIMEOUT_MS, XFER_OFFER_TTL_SECS, XFER_STALL_SECS, XFER_WINDOW_BLOCKS,
};

const NOW: u64 = 1_000_000;
const BLOCK: usize = XFER_BLOCK_SIZE as usize;

struct Pull {
    recv: RecvState,
    file: Vec<u8>,
}

impl Pull {
    fn write_block(&mut self, offset: u64, data: &[u8]) -> bool {
        match self.recv.write_block(offset, data.len(), NOW) {
            BlockWrite::Store { block } => {
                let at = offset as usize;
                if self.file.len() < at + data.len() {
                    self.file.resize(at + data.len(), 0);
                }
                self.file[at..at + data.len()].copy_from_slice(data);
                self.recv.block_stored(block);
                true
            }
            _ => false,
        }
    }
}

fn temp_recv(size: u64) -> Pull {
    let recv = RecvState::new(
        [1u8; 16],
        [2u8; 32],
        [3u8; 32],
        "x.bin".to_string(),
        size,
        [0u8; 32],
        NOW,
    );
    Pull { recv, file: Vec::new() }
}

fn sender(size: u64) -> SendState {
    SendState::new([0u8; 16], [0u8; 32], [3u8; 32], "f".to_string(), size, NOW)
}

#[test]
fn requests_cover_every_block_and_respect_the_window() {
    let mut pull = temp_recv(XFER_BLOCK_SIZE * 200);
    let runs = pull.recv.next_requests(NOW);
    let asked: u64 = runs.iter().map(|(_, count)| *count as u64).sum();
    assert_eq!(asked, XFER_WINDOW_BLOCKS as u64);
    assert_eq!(runs, vec![(0, XFER_WINDOW_BLOCKS as u16)]);
    assert!(pull.recv.next_requests(NOW).is_empty());
}

#[test]
fn an_unanswered_block_is_asked_for_again() {
    let mut pull = temp_recv(XFER_BLOCK_SIZE * 4);
    assert_eq!(pull.recv.next_requests(NOW), vec![(0, 4)]);
    assert!(pull.recv.next_requests(NOW).is_empty());
    let later = NOW + XFER_BLOCK_TIMEOUT_MS + 1;
    assert_eq!(pull.recv.next_requests(later), vec![(0, 4)]);
}

#[test]
fn received_blocks_are_not_asked_for_again() {
    let mut pull = temp_recv(XFER_BLOCK_SIZE * 4);
    let _ = pull.recv.next_requests(NOW);
    let block = vec![7u8; BLOCK];
    assert!(pull.write_block(XFER_BLOCK_SIZE, &block));
    let later = NOW + XFER_BLOCK_TIMEOUT_MS + 1;
    assert_eq!(pull.recv.next_requests(later), vec![(0, 1), (2, 2)]);
}

#[test]
fn a_duplicate_block_is_accepted_but_counted_once() {
    let mut pull = temp_recv(XFER_BLOCK_SIZE * 2);
    let block = vec![3u8; BLOCK];
    assert!(pull.write_block(0, &block));
    assert!(!pull.write_block(0, &block));
    assert_eq!(pull.recv.write_block(0, BLOCK, NOW), BlockWrite::Duplicate);
    assert_eq!(pull.recv.have_blocks, 1);
}

#[test]
fn misaligned_or_wrong_length_blocks_are_refused() {
    let mut pull = temp_recv(XFER_BLOCK_SIZE * 2);
    let full = vec![1u8; BLOCK];
    assert!(!pull.write_block(1, &full));
    assert!(!pull.write_block(0, &full[..10]));
    assert!(!pull.write_block(XFER_BLOCK_SIZE * 2, &full));
    assert_eq!(pull.recv.write_block(0, 0, NOW), BlockWrite::Refused);
    assert_eq!(pull.recv.have_blocks, 0);
}

#[test]
fn the_short_final_block_is_accepted_at_its_real_length() {
    let size = XFER_BLOCK_SIZE + 10;
    let mut pull = temp_recv(size);
    assert!(pull.write_block(0, &vec![1u8; BLOCK]));
    assert!(!pull.write_block(XFER_BLOCK_SIZE, &vec![2u8; BLOCK]));
    assert!(pull.write_block(XFER_BLOCK_SIZE, &[2u8; 10]));
    assert!(pull.recv.is_complete());
}

#[test]
fn completion_writes_every_byte_in_order() {
    let size = XFER_BLOCK_SIZE * 3 + 7;
    let mut pull = temp_recv(size);
    let mut expected = Vec::new();
    for block in [2u64, 0, 3, 1] {
        let offset = block * XFER_BLOCK_SIZE;
        let len = ((size - offset) as usize).min(BLOCK);
        let data = vec![block as u8; len];
        assert!(pull.write_block(offset, &data));
    }
    for block in 0..4u64 {
        let offset = block * XFER_BLOCK_SIZE;
        let len = ((size - offset) as usize).min(BLOCK);
        expected.extend(std::iter::repeat(block as u8).take(len));
    }
    assert_eq!(pull.file, expected);
    assert!(pull.recv.is_complete());
    assert_eq!(pull.recv.bytes_received(), size);
}

#[test]
fn the_send_queue_ignores_repeats_and_out_of_range_blocks() {
    let mut send = sender(XFER_BLOCK_SIZE * 3);
    send.accepted = true;
    send.enqueue(0, 3, NOW);
    send.enqueue(0, 3, NOW);
    send.enqueue(99, 4, NOW);
    assert_eq!(send.next_block(), Some(0));
    assert_eq!(send.next_block(), Some(1));
    assert_eq!(send.next_block(), Some(2));
    assert_eq!(send.next_block(), None);
    assert!(!send.has_work());
}

#[test]
fn the_send_queue_is_capped_at_one_window() {
    let mut send = sender(XFER_BLOCK_SIZE * 10_000);
    for start in 0..100u64 {
        send.enqueue(start * 64, 64, NOW);
    }
    let mut drained = 0;
    while send.next_block().is_some() {
        drained += 1;
    }
    assert_eq!(drained, XFER_WINDOW_BLOCKS);
}

#[test]
fn an_unanswered_offer_outlives_the_stall_timeout() {
    let mut send = sender(XFER_BLOCK_SIZE);
    let now = send.updated_at;
    let past_stall = now + (XFER_STALL_SECS + 1) * 1_000;
    assert!(!send.is_stalled(past_stall));
    assert!(!send.is_stalled(now + XFER_OFFER_TTL_SECS * 1_000));
    let past_offer = now + (XFER_OFFER_TTL_SECS + OFFER_GRACE_SECS + 1) * 1_000;
    assert!(send.is_stalled(past_offer));
    send.accepted = true;
    assert!(send.is_stalled(past_stall));
}

#[test]
fn send_progress_only_reports_when_it_moves() {
    let mut send = sender(XFER_BLOCK_SIZE * 100);
    assert_eq!(send.progress_step(), None);
    send.note_sent(NOW);
    assert_eq!(send.progress_step(), Some(1));
    assert_eq!(send.progress_step(), None);
    for _ in 0..99 {
        send.note_sent(NOW);
    }
    assert_eq!(send.progress_step(), Some(100));
    assert_eq!(send.bytes_sent(), XFER_BLOCK_SIZE * 100);
}

#[test]
fn nothing_is_sent_before_the_offer_is_accepted() {
    let mut send = sender(XFER_BLOCK_SIZE);
    send.enqueue(0, 1, NOW);
    assert!(!send.has_work());
    send.accepted = true;
    assert!(send.has_work());
}

#[test]
fn an_empty_file_is_complete_at_once() {
    let mut pull = temp_recv(0);
    assert!(pull.recv.is_complete());
    assert_eq!(pull.recv.progress_step(), Some(100));
    assert_eq!(pull.recv.progress_step(), None);
    assert!(pull.recv.next_requests(NOW).is_empty());
    assert_eq!(xfer_block_count(0), 0);
    assert_eq!(xfer_block_count(1), 1);
    assert_eq!(xfer_block_count(XFER_BLOCK_SIZE), 1);
    assert_eq!(xfer_block_count(XFER_BLOCK_SIZE + 1), 2);
    assert_eq!(xfer_block_count(u64::MAX), 18_014_398_509_481_984);
}

#[test]
fn a_silent_sender_is_given_up() {
    let pull = temp_recv(XFER_BLOCK_SIZE);
    assert!(!pull.recv.is_stalled(NOW + 90_000));
    assert!(pull.recv.is_stalled(NOW + 90_001));
}

#[test]
fn receive_progress_moves_by_steps() {
    let mut pull = temp_recv(XFER_BLOCK_SIZE * 200);
    assert_eq!(pull.recv.progress_step(), None);
    let block = vec![1u8; BLOCK];
    assert!(pull.write_block(0, &block));
    assert_eq!(pull.recv.progress_step(), None);
    assert!(pull.write_block(XFER_BLOCK_SIZE, &block));
    assert_eq!(pull.recv.progress_step(), Some(1));
}

#[test]
fn a_finished_download_is_reported_once() {
    let mut pull = temp_recv(XFER_BLOCK_SIZE * 2);
    let block = vec![1u8; BLOCK];
    assert!(pull.write_block(0, &block));
    assert_eq!(pull.recv.progress_step(), Some(50));
    assert!(pull.write_block(XFER_BLOCK_SIZE, &block));
    assert!(pull.recv.is_complete());
    assert_eq!(pull.recv.progress_step(), Some(100));
    assert_eq!(pull.recv.progress_step(), None);
    assert_eq!(pull.recv.progress_step(), None);
}
