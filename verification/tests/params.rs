use quiche::{TransportParams, VERSION_DRAFT15};

#[test]
fn transport_params() {
    let tp = TransportParams {
        idle_timeout: 30,
        initial_max_data: 424645563,
        initial_max_bidi_streams: 12231,
        initial_max_uni_streams: 18473,
        max_packet_size: 23421,
        ack_delay_exponent: 123,
        disable_migration: true,
        max_ack_delay: 25,
        initial_max_stream_data_bidi_local: 154323123,
        initial_max_stream_data_bidi_remote: 6587456,
        initial_max_stream_data_uni: 2461234,
        stateless_reset_token_present: true,
        stateless_reset_token: [0xba; 16],
    };

    let mut raw_params: [u8; 256] = [42; 256];
    let mut raw_params =
        TransportParams::encode(&tp, VERSION_DRAFT15, true, &mut raw_params).unwrap();
    assert_eq!(raw_params.len(), 96);

    let new_tp = TransportParams::decode(&mut raw_params, VERSION_DRAFT15, false).unwrap();

    assert_eq!(new_tp, tp);
}
