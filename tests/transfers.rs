use ble_transport::api::{CmdApi, CommandReq, QueryApi, QueryReq};
use ble_transport::envelope::{decode_chunk, encode_chunk, DataChunk};
use ble_transport::mobile_buffer::MobileBufferMap;
use ble_transport::publisher::publish_chunks;

fn message(len: usize) -> Vec<u8> {
    (0..len).map(|i| (i * 7 % 251) as u8).collect()
}

fn read_all(map: &mut MobileBufferMap, addr: &str, budget: usize, data: &[u8]) -> Vec<DataChunk> {
    let query = QueryReq { query_type: QueryApi::SdpAnswer, resp_buffer_len: budget };
    let mut out = Vec::new();
    loop {
        let c = map.next_fragment(addr, &query, data);
        let last = c.r == 0;
        out.push(c);
        if last {
            return out;
        }
    }
}

#[test]
fn fragments_rebuild_message_and_end_once() {
    for len in [0usize, 1, 4, 5, 99, 1000, 4999] {
        for budget in [6usize, 7, 50, 105] {
            let mut map = MobileBufferMap::new(5);
            let data = message(len);
            let chunks = read_all(&mut map, "peer", budget, &data);
            let joined: Vec<u8> = chunks.iter().flat_map(|c| c.d.clone()).collect();
            assert_eq!(joined, data);
            assert!(chunks[..chunks.len() - 1].iter().all(|c| c.r > 0));
            assert_eq!(chunks.last().unwrap().r, 0);
        }
    }
}

#[test]
fn zero_length_message_is_one_empty_fragment() {
    let mut map = MobileBufferMap::new(5);
    let chunks = read_all(&mut map, "peer", 20, &[]);
    assert_eq!(chunks, vec![DataChunk { r: 0, d: vec![] }]);
}

#[test]
fn reassembly_returns_only_on_last_fragment() {
    let mut map = MobileBufferMap::new(5);
    let data = message(777);
    let chunks = read_all(&mut map, "peer", 64, &data);
    let mut outputs = Vec::new();
    for c in &chunks {
        let cmd = CommandReq { cmd_type: CmdApi::SdpOffer, payload: encode_chunk(c) };
        outputs.push(map.get_complete_buffer("peer", &cmd).unwrap());
    }
    assert!(outputs[..outputs.len() - 1].iter().all(|o| o.is_none()));
    assert_eq!(outputs.last().unwrap().as_ref(), Some(&data));
}

#[test]
fn remove_peer_is_idempotent() {
    let mut map = MobileBufferMap::new(5);
    map.remove_mobile("nobody");
    assert!(!map.contains_mobile("nobody"));
    let q = QueryReq { query_type: QueryApi::HostInfo, resp_buffer_len: 10 };
    let first = map.next_fragment("peer", &q, &message(30));
    assert_eq!(first.r, 25);
    map.remove_mobile("peer");
    map.remove_mobile("peer");
    assert!(!map.contains_mobile("peer"));
    // the transfer starts again from the beginning
    let again = map.next_fragment("peer", &q, &message(30));
    assert_eq!(again, first);
}

#[test]
fn growing_budget_still_finishes() {
    let mut map = MobileBufferMap::new(5);
    let data = message(300);
    let mut budget = 15usize;
    let mut joined = Vec::new();
    let mut remaining = Vec::new();
    loop {
        let q = QueryReq { query_type: QueryApi::HostInfo, resp_buffer_len: budget };
        let c = map.next_fragment("peer", &q, &data);
        joined.extend_from_slice(&c.d);
        remaining.push(c.r);
        if c.r == 0 {
            break;
        }
        budget *= 2;
    }
    assert_eq!(remaining, vec![290, 265, 210, 95, 0]);
    assert_eq!(joined, data);
}

#[test]
fn oversized_single_fragment_is_dropped() {
    let mut map = MobileBufferMap::new(5);
    let cmd = CommandReq {
        cmd_type: CmdApi::RegisterMobile,
        payload: encode_chunk(&DataChunk { r: 0, d: vec![1; 5001] }),
    };
    assert_eq!(map.get_complete_buffer("peer", &cmd), Ok(None));
    // the cursor was cleared: a fresh small message goes through on its own
    let small = CommandReq {
        cmd_type: CmdApi::RegisterMobile,
        payload: encode_chunk(&DataChunk { r: 0, d: vec![2; 10] }),
    };
    assert_eq!(map.get_complete_buffer("peer", &small), Ok(Some(vec![2; 10])));
}

#[test]
fn accumulation_past_ceiling_is_dropped() {
    let mut map = MobileBufferMap::new(5);
    let first = DataChunk { r: 2000, d: vec![1; 4000] };
    let second = DataChunk { r: 0, d: vec![1; 2000] };
    assert_eq!(map.append_fragment("peer", CmdApi::SdpOffer, first), None);
    assert_eq!(map.append_fragment("peer", CmdApi::SdpOffer, second), None);
    let fresh = DataChunk { r: 0, d: vec![3; 4] };
    assert_eq!(map.append_fragment("peer", CmdApi::SdpOffer, fresh), Some(vec![3; 4]));
}

#[test]
fn budget_over_ceiling_aborts_after_one_fragment() {
    let mut map = MobileBufferMap::new(5);
    let data = message(12_000);
    let q = QueryReq { query_type: QueryApi::HostInfo, resp_buffer_len: 6010 };
    let first = map.next_fragment("peer", &q, &data);
    assert_eq!(first.d.len(), 6005);
    assert_eq!(first.r, 5995);
    // the transfer was dropped, so the next call starts from the beginning
    let second = map.next_fragment("peer", &q, &data);
    assert_eq!(second, first);
}

#[test]
fn transport_budget_over_ceiling_drops_cursor() {
    let mut map = MobileBufferMap::new(5);
    let data = message(10_000);
    let q = QueryReq { query_type: QueryApi::HostInfo, resp_buffer_len: 5003 };
    let first = map.next_fragment("peer", &q, &data);
    assert_eq!(first.d.len(), 4998);
    assert_eq!(first.r, 5002);
    // the transport budget exceeds the ceiling, so the transfer was dropped
    let second = map.next_fragment("peer", &q, &data);
    assert_eq!(second, first);
}

#[test]
fn transport_budget_at_ceiling_keeps_cursor() {
    let mut map = MobileBufferMap::new(5);
    let data = message(10_000);
    let q = QueryReq { query_type: QueryApi::HostInfo, resp_buffer_len: 5000 };
    let first = map.next_fragment("peer", &q, &data);
    assert_eq!(first.r, 5005);
    let second = map.next_fragment("peer", &q, &data);
    assert_eq!(second.r, 10);
    assert_eq!(second.d, data[4995..9990].to_vec());
}

#[test]
fn two_peers_same_kind_interleaved() {
    let mut map = MobileBufferMap::new(5);
    let a = vec![55u8; 1000];
    let b = vec![66u8; 1000];
    let q = QueryReq { query_type: QueryApi::HostInfo, resp_buffer_len: 105 };
    let mut ra = Vec::new();
    let mut rb = Vec::new();
    for step in 0..10 {
        let ca = decode_chunk(&map.get_next_data_chunk("A", &q, &a)).unwrap();
        ra.push(ca.r);
        assert_eq!(ca.d, vec![55u8; 100]);
        if step % 2 == 0 {
            continue;
        }
        let cb = decode_chunk(&map.get_next_data_chunk("B", &q, &b)).unwrap();
        rb.push(cb.r);
        assert_eq!(cb.d, vec![66u8; 100]);
    }
    assert_eq!(ra, vec![900, 800, 700, 600, 500, 400, 300, 200, 100, 0]);
    assert_eq!(rb, vec![900, 800, 700, 600, 500]);
}

#[test]
fn read_and_write_cursors_do_not_interfere() {
    let mut map = MobileBufferMap::new(5);
    let q = QueryReq { query_type: QueryApi::HostInfo, resp_buffer_len: 15 };
    let data = message(40);
    let c = map.next_fragment("peer", &q, &data);
    assert_eq!(c.r, 30);
    assert_eq!(map.append_fragment("peer", CmdApi::RegisterMobile, DataChunk { r: 0, d: vec![9] }), Some(vec![9]));
    let c2 = map.next_fragment("peer", &q, &data);
    assert_eq!(c2.r, 20);
    assert_eq!(c2.d, data[10..20].to_vec());
}

#[test]
fn publish_splits_like_the_read_path() {
    let data = message(25);
    let out = publish_chunks(&data, 10);
    let chunks: Vec<DataChunk> = out.iter().map(|b| decode_chunk(b).unwrap()).collect();
    assert_eq!(chunks.iter().map(|c| c.r).collect::<Vec<_>>(), vec![15, 5, 0]);
    assert_eq!(chunks.iter().map(|c| c.d.len()).collect::<Vec<_>>(), vec![10, 10, 5]);
    let joined: Vec<u8> = chunks.iter().flat_map(|c| c.d.clone()).collect();
    assert_eq!(joined, data);
}

#[test]
fn publish_of_empty_payload_is_one_empty_envelope() {
    let out = publish_chunks(&[], 10);
    assert_eq!(out.len(), 1);
    assert_eq!(decode_chunk(&out[0]), Ok(DataChunk { r: 0, d: vec![] }));
}
