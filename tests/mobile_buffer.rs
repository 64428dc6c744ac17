use ble_transport::api::{CmdApi, CommandReq, QueryApi, QueryReq};
use ble_transport::envelope::{decode_chunk, encode_chunk, DataChunk};
use ble_transport::mobile_buffer::MobileBufferMap;

const CHUNK_LEN: usize = 5;

fn read(buffer_map: &mut MobileBufferMap, addr: &str, query: &QueryReq, data: &[u8]) -> DataChunk {
    decode_chunk(&buffer_map.get_next_data_chunk(addr, query, data)).unwrap()
}

#[test]
fn test_add_and_contains_mobile() {
    let mut buffer_map = MobileBufferMap::new(0);
    let addr = "00:11:22:33:44:55";

    assert!(!buffer_map.contains_mobile(addr));

    buffer_map.add_mobile(addr);
    assert!(buffer_map.contains_mobile(addr));
}

#[test]
fn mobile_buffer_test_remove_mobile() {
    let mut buffer_map = MobileBufferMap::new(CHUNK_LEN);
    let addr = "00:11:22:33:44:55";

    buffer_map.add_mobile(addr);
    assert!(buffer_map.contains_mobile(addr));

    buffer_map.remove_mobile(addr);
    assert!(!buffer_map.contains_mobile(addr));
}

#[test]
fn test_contains_mobile() {
    let mut buffer_map = MobileBufferMap::new(0);
    buffer_map.add_mobile("00:11:22:33:44:55");

    assert!(buffer_map.contains_mobile("00:11:22:33:44:55"));

    assert!(!buffer_map.contains_mobile("FF:EE:DD:CC:BB:AA"));

    buffer_map.remove_mobile("00:11:22:33:44:55");
    assert!(!buffer_map.contains_mobile("00:11:22:33:44:55"));
}

#[test]
fn mobile_buffer_test_get_next_data_chunk_simple_data() {
    let mut buffer_map = MobileBufferMap::new(CHUNK_LEN);
    let addr = "AA:BB:CC:DD:EE:FF";

    let expected_len = 100;
    let allowed_data_len = 100 - CHUNK_LEN;
    let data = vec![55u8; allowed_data_len];
    let query = QueryReq { query_type: QueryApi::HostInfo, resp_buffer_len: expected_len };

    let chunk = read(&mut buffer_map, addr, &query, &data);

    assert_eq!(chunk.r, 0);
    assert_eq!(chunk.d.len(), allowed_data_len);
}

#[test]
fn mobile_buffer_test_get_next_data_chunk_large_data() {
    let mut buffer_map = MobileBufferMap::new(CHUNK_LEN);
    let addr = "AA:BB:CC:DD:EE:FF";

    let expected_len = 5000;
    let data = vec![55u8; expected_len];
    let resp_buffer_len = 1024;
    let query = QueryReq { query_type: QueryApi::HostInfo, resp_buffer_len };

    let allowed_data_len = resp_buffer_len - CHUNK_LEN;

    let mut chunks = Vec::new();
    loop {
        let chunk = read(&mut buffer_map, addr, &query, &data);
        chunks.push(chunk.clone());
        if chunk.r == 0 {
            break;
        }
    }

    assert_eq!(chunks.len(), 5);
    assert_eq!(chunks[0].d.len(), allowed_data_len);
    assert_eq!(chunks[0].r, 3981);
    assert_eq!(chunks[1].d.len(), allowed_data_len);
    assert_eq!(chunks[1].r, 2962);
    assert_eq!(chunks[2].d.len(), allowed_data_len);
    assert_eq!(chunks[2].r, 1943);
    assert_eq!(chunks[3].d.len(), allowed_data_len);
    assert_eq!(chunks[3].r, 924);
    assert_eq!(chunks[4].d.len(), 924);
    assert_eq!(chunks[4].r, 0);
}

#[test]
fn mobile_buffer_test_get_next_data_chunk_large_data_changing_max_buffer() {
    let mut buffer_map = MobileBufferMap::new(CHUNK_LEN);
    let addr = "AA:BB:CC:DD:EE:FF";

    let expected_len = 300;
    let data = vec![55u8; expected_len];
    let mut chunks = Vec::new();

    let mut max_buffer_len = 15;
    let mut query = QueryReq { query_type: QueryApi::HostInfo, resp_buffer_len: max_buffer_len };
    loop {
        let chunk = read(&mut buffer_map, addr, &query, &data);
        chunks.push(chunk.clone());
        if chunk.r == 0 {
            break;
        }
        max_buffer_len *= 2;
        query.resp_buffer_len = max_buffer_len;
    }
    assert!(chunks[chunks.len() - 1].r == 0);
}

#[test]
fn mobile_buffer_test_get_next_data_chunk_large_data_twice() {
    let mut buffer_map = MobileBufferMap::new(CHUNK_LEN);
    let addr = "AA:BB:CC:DD:EE:FF";

    let expected_len = 300;
    let data = vec![55u8; expected_len];

    let resp_buffer_len = 15;
    let query = QueryReq { query_type: QueryApi::HostInfo, resp_buffer_len };
    let allowed_data_len = resp_buffer_len - CHUNK_LEN;

    let mut chunks = Vec::new();
    loop {
        let chunk = read(&mut buffer_map, addr, &query, &data);
        chunks.push(chunk.clone());
        if chunk.r == 0 {
            break;
        }
    }

    assert_eq!(chunks.len(), 30);
    assert_eq!(chunks[0].d.len(), allowed_data_len);
    assert_eq!(chunks[0].r, 290);
    assert_eq!(chunks[29].d.len(), allowed_data_len);
    assert_eq!(chunks[29].r, 0);

    chunks = Vec::new();
    let resp_buffer_len = 13;
    let new_query = QueryReq { query_type: QueryApi::HostInfo, resp_buffer_len };
    let allowed_data_len = resp_buffer_len - CHUNK_LEN;
    loop {
        let chunk = read(&mut buffer_map, addr, &new_query, &data);
        chunks.push(chunk.clone());
        if chunk.r == 0 {
            break;
        }
    }

    assert_eq!(chunks.len(), 38);
    assert_eq!(chunks[0].d.len(), allowed_data_len);
    assert_eq!(chunks[0].r, 292);
    assert_eq!(chunks[37].d.len(), 4);
    assert_eq!(chunks[37].r, 0);
}

#[test]
fn mobile_buffer_test_get_complete_buffer_simple_data() {
    let mut buffer_map = MobileBufferMap::new(CHUNK_LEN);
    let addr = "11:22:33:44:55:66";

    let expected_len = 100;
    let allowed_data_len = 100 - CHUNK_LEN;
    let data = vec![55u8; allowed_data_len];
    let query = QueryReq { query_type: QueryApi::HostInfo, resp_buffer_len: expected_len };

    let chunk = read(&mut buffer_map, addr, &query, &data);
    assert_eq!(chunk.r, 0);

    let cmd = CommandReq { cmd_type: CmdApi::MobileDisconnected, payload: encode_chunk(&chunk) };

    let buffer = buffer_map.get_complete_buffer(addr, &cmd).unwrap();
    assert_eq!(buffer.map(|b| b.len()), Some(allowed_data_len));
}

#[test]
fn mobile_buffer_test_get_complete_buffer_large_data() {
    let mut buffer_map = MobileBufferMap::new(CHUNK_LEN);
    let addr = "11:22:33:44:55:66";

    let expected_len = 3355;
    let data = vec![55u8; expected_len];
    let query = QueryReq { query_type: QueryApi::HostInfo, resp_buffer_len: 512 };
    let mut chunks = Vec::new();
    loop {
        let chunk = read(&mut buffer_map, addr, &query, &data);
        chunks.push(chunk.clone());
        if chunk.r == 0 {
            break;
        }
    }

    let mut completed = None;
    let mut indx = 0;
    while indx < chunks.len() {
        let cmd = CommandReq {
            cmd_type: CmdApi::MobileDisconnected,
            payload: encode_chunk(&chunks[indx]),
        };
        if let Some(buffer) = buffer_map.get_complete_buffer(addr, &cmd).unwrap() {
            assert_eq!(buffer.len(), expected_len);
            completed = Some(indx);
            break;
        }
        indx += 1;
    }
    assert_eq!(completed, Some(chunks.len() - 1));
}

#[test]
fn test_not_allowed_parallel_transactions() {
    let mut buffer_map = MobileBufferMap::new(0);
    let addr = "11:22:33:44:55:66";
    buffer_map.add_mobile(addr);

    let data = vec![b'B'; 1000];
    let query = QueryReq { query_type: QueryApi::HostInfo, resp_buffer_len: 100 };

    let chunk = read(&mut buffer_map, addr, &query, &data);
    assert_eq!(chunk.r, 900);

    let cmd = CommandReq { cmd_type: CmdApi::MobileDisconnected, payload: encode_chunk(&chunk) };
    let resp = buffer_map.get_complete_buffer(addr, &cmd).unwrap();
    assert!(resp.is_none());
}

#[test]
fn test_multiple_device_in_parallel_communication() {
    let mut buffer_map = MobileBufferMap::new(CHUNK_LEN);
    let addr1 = "AA:BB:CC:DD:EE:FF";
    let addr2 = "11:22:33:44:55:66";

    let expected_len = 1000;
    let data1 = vec![55u8; expected_len];
    let data2 = vec![66u8; expected_len];

    let resp_buffer_len = 100 + CHUNK_LEN;
    let query1 = QueryReq { query_type: QueryApi::HostInfo, resp_buffer_len };
    let query2 = QueryReq { query_type: QueryApi::HostInfo, resp_buffer_len };

    let allowed_data_len = resp_buffer_len - CHUNK_LEN;

    let mut chunks1 = Vec::new();
    let mut chunks2 = Vec::new();

    loop {
        let chunk = read(&mut buffer_map, addr1, &query1, &data1);
        chunks1.push(chunk.clone());
        if chunk.r == 0 {
            break;
        }
    }

    loop {
        let chunk = read(&mut buffer_map, addr2, &query2, &data2);
        chunks2.push(chunk.clone());
        if chunk.r == 0 {
            break;
        }
    }

    assert_eq!(chunks1.len(), expected_len / allowed_data_len);
    assert_eq!(chunks2.len(), expected_len / allowed_data_len);

    for chunk in chunks1 {
        assert_eq!(chunk.d, vec![55u8; allowed_data_len]);
    }

    for chunk in chunks2 {
        assert_eq!(chunk.d, vec![66u8; allowed_data_len]);
    }
}

#[test]
fn test_single_device_single_parallel_communication() {
    let mut buffer_map = MobileBufferMap::new(CHUNK_LEN);
    let addr = "AA:BB:CC:DD:EE:FF";

    let expected_len = 500;
    let data1 = vec![55u8; expected_len];
    let data2 = vec![66u8; expected_len];

    let cmd1 = CommandReq {
        cmd_type: CmdApi::MobileDisconnected,
        payload: encode_chunk(&DataChunk { r: 0, d: data1.clone() }),
    };

    let cmd2 = CommandReq {
        cmd_type: CmdApi::RegisterMobile,
        payload: encode_chunk(&DataChunk { r: 0, d: data2.clone() }),
    };

    let mut buffer1 = Vec::new();
    let mut buffer2 = Vec::new();

    while let Some(chunk) = buffer_map.get_complete_buffer(addr, &cmd1).unwrap() {
        buffer1.extend_from_slice(&chunk);
        if buffer1.len() >= data1.len() {
            break;
        }
    }

    while let Some(chunk) = buffer_map.get_complete_buffer(addr, &cmd2).unwrap() {
        buffer2.extend_from_slice(&chunk);
        if buffer2.len() >= data2.len() {
            break;
        }
    }

    assert_eq!(buffer1, data1);
    assert_eq!(buffer2, data2);
}

#[test]
fn test_single_device_multiple_parallel_communication() {
    let mut buffer_map = MobileBufferMap::new(CHUNK_LEN);
    let addr = "AA:BB:CC:DD:EE:FF";

    let expected_len = 500;
    let data1 = vec![55u8; expected_len];
    let data2 = vec![66u8; expected_len];

    let mut chunks1 = Vec::new();
    let mut chunks2 = Vec::new();

    let mut start_chunk = 0;
    let chunk_len = 100;

    while start_chunk <= expected_len - chunk_len {
        let end_chunk = start_chunk + chunk_len;

        chunks1.push(DataChunk { r: expected_len - end_chunk, d: data1[start_chunk..end_chunk].to_owned() });
        chunks2.push(DataChunk { r: expected_len - end_chunk, d: data2[start_chunk..end_chunk].to_owned() });

        start_chunk = end_chunk;
    }

    let mut done1 = 0;
    let mut done2 = 0;
    for (chunk1, chunk2) in chunks1.iter().zip(chunks2.iter()) {
        let cmd = CommandReq { cmd_type: CmdApi::RegisterMobile, payload: encode_chunk(chunk1) };
        if let Some(buffer1) = buffer_map.get_complete_buffer(addr, &cmd).unwrap() {
            assert_eq!(buffer1.len(), expected_len);
            assert_eq!(buffer1, data1);
            done1 += 1;
        }

        let cmd = CommandReq { cmd_type: CmdApi::SdpOffer, payload: encode_chunk(chunk2) };
        if let Some(buffer2) = buffer_map.get_complete_buffer(addr, &cmd).unwrap() {
            assert_eq!(buffer2.len(), expected_len);
            assert_eq!(buffer2, data2);
            done2 += 1;
        }
    }
    assert_eq!((done1, done2), (1, 1));
}

#[test]
fn test_maximum_buffer_size() {
    let mut buffer_map = MobileBufferMap::new(CHUNK_LEN);
    let addr = "AA:BB:CC:DD:EE:FF";

    let expected_len = 5001;
    let data = vec![55u8; expected_len];
    let cmd = CommandReq {
        cmd_type: CmdApi::MobileDisconnected,
        payload: encode_chunk(&DataChunk { r: 0, d: data.clone() }),
    };

    let buffer = buffer_map.get_complete_buffer(addr, &cmd).unwrap();

    assert!(buffer.is_none());
}

#[test]
fn get_next_data_chunk_large_data_without_overhead() {
    let mut buffer_map = MobileBufferMap::new(0);
    let addr = "AA:BB:CC:DD:EE:FF";
    buffer_map.add_mobile(addr);

    let data = vec![b'A'; 5000];
    let query = QueryReq { query_type: QueryApi::HostInfo, resp_buffer_len: 1024 };
    let mut chunks = Vec::new();
    loop {
        let chunk = read(&mut buffer_map, addr, &query, &data);
        chunks.push(chunk.clone());
        if chunk.r == 0 {
            break;
        }
    }

    assert_eq!(chunks.len(), 5);
    assert_eq!(chunks[0].d.len(), 1024);
    assert_eq!(chunks[0].r, 3976);
    assert_eq!(chunks[1].d.len(), 1024);
    assert_eq!(chunks[1].r, 2952);
    assert_eq!(chunks[2].d.len(), 1024);
    assert_eq!(chunks[2].r, 1928);
    assert_eq!(chunks[3].d.len(), 1024);
    assert_eq!(chunks[3].r, 904);
    assert_eq!(chunks[4].d.len(), 904);
    assert_eq!(chunks[4].r, 0);
}

#[test]
fn get_next_data_chunk_twice_without_overhead() {
    let mut buffer_map = MobileBufferMap::new(0);
    let addr = "AA:BB:CC:DD:EE:FF";
    buffer_map.add_mobile(addr);

    let data = vec![b'A'; 300];
    let query = QueryReq { query_type: QueryApi::HostInfo, resp_buffer_len: 15 };
    let mut chunks = Vec::new();
    loop {
        let chunk = read(&mut buffer_map, addr, &query, &data);
        chunks.push(chunk.clone());
        if chunk.r == 0 {
            break;
        }
    }

    assert_eq!(chunks.len(), 20);
    assert_eq!(chunks[0].d.len(), 15);
    assert_eq!(chunks[0].r, 285);
    assert_eq!(chunks[19].d.len(), 15);
    assert_eq!(chunks[19].r, 0);

    let new_query = QueryReq { query_type: QueryApi::HostInfo, resp_buffer_len: 13 };
    loop {
        let chunk = read(&mut buffer_map, addr, &new_query, &data);
        chunks.push(chunk.clone());
        if chunk.r == 0 {
            break;
        }
    }

    assert_eq!(chunks.len(), 44);
    assert_eq!(chunks[20].d.len(), 13);
    assert_eq!(chunks[20].r, 287);
    assert_eq!(chunks[43].d.len(), 1);
    assert_eq!(chunks[43].r, 0);
}

#[test]
fn get_complete_buffer_simple_data_without_overhead() {
    let mut buffer_map = MobileBufferMap::new(0);
    let addr = "11:22:33:44:55:66";
    buffer_map.add_mobile(addr);

    let data = vec![b'B'; 100];
    let query = QueryReq { query_type: QueryApi::HostInfo, resp_buffer_len: 100 };

    let chunk = read(&mut buffer_map, addr, &query, &data);
    assert_eq!(chunk.r, 0);
    assert_eq!(chunk.d.len(), 100);

    let cmd = CommandReq { cmd_type: CmdApi::MobileDisconnected, payload: encode_chunk(&chunk) };
    let buffer = buffer_map.get_complete_buffer(addr, &cmd).unwrap();
    assert_eq!(buffer.map(|b| b.len()), Some(100));
}
