use std::collections::VecDeque;

use aether::audio::{
    decode_samples, downmix_i16_to_i16, encode_samples, fill_output, from_bytes, peek_front,
    pull_or_pad, reference_len, to_bytes, Pacer, FRAME_NANOS,
};
use aether::json::{parse, Json};
use aether::voice::{
    deployment, flush_outgoing, handle_event, key_args, key_from, key_is_fresh, read_key,
    realtime_url, resource_group, resource_name, session_update, tools_for_session, Poll, Session,
    VoiceCmd, VoiceEvent, VoiceHandle,
};

fn message(text: &str) -> Json {
    parse(text).expect("json")
}

#[test]
fn samples_survive_bytes_and_the_wire() {
    let s = vec![0i16, 1, -1, 255, 256, i16::MAX, i16::MIN, -300];
    let b = to_bytes(&s);
    assert_eq!(&b[..6], &[0, 0, 1, 0, 0xff, 0xff]);
    assert_eq!(from_bytes(&b), s);
    assert_eq!(from_bytes(&vec![1, 0, 9]), vec![1]);
    let text = encode_samples(&s);
    assert_eq!(decode_samples(&text), Some(s));
    assert_eq!(encode_samples(&vec![0x4241]), "QUI=");
    assert_eq!(decode_samples("not base64!"), None);
}

#[test]
fn queues_are_drained_and_padded() {
    let mut q: VecDeque<i32> = VecDeque::from(vec![1, 2, 3]);
    assert_eq!(peek_front(&q, 2), vec![1, 2]);
    assert_eq!(peek_front(&q, 9), vec![1, 2, 3]);
    assert_eq!(pull_or_pad(&mut q, 2, 0), vec![1, 2]);
    assert_eq!(pull_or_pad(&mut q, 3, 0), vec![3, 0, 0]);
    assert!(q.is_empty());
}

#[test]
fn the_speaker_gets_each_sample_on_every_channel() {
    let mut q: VecDeque<i32> = VecDeque::from(vec![5, 6]);
    assert_eq!(fill_output(&mut q, 5, 2, 0), vec![5, 5, 6, 6, 0]);
    assert!(q.is_empty());
    let mut q: VecDeque<i32> = VecDeque::from(vec![5, 6, 7]);
    assert_eq!(fill_output(&mut q, 2, 0, 0), vec![5, 6]);
    assert_eq!(q.len(), 1);
}

#[test]
fn channels_are_mixed_towards_zero() {
    assert_eq!(downmix_i16_to_i16(&[1, 2, -1, -2, 5], 2), vec![1, -1, 2]);
    assert_eq!(downmix_i16_to_i16(&[1, 2], 0), vec![1, 2]);
    assert_eq!(downmix_i16_to_i16(&[i16::MIN, i16::MIN], 2), vec![i16::MIN]);
}

#[test]
fn the_reference_covers_a_frame() {
    assert_eq!(reference_len(48_000), 482);
    assert_eq!(reference_len(44_100), 443);
    assert_eq!(reference_len(0), 2);
}

#[test]
fn frames_are_caught_up_one_by_one() {
    let mut p = Pacer::new(0);
    assert!(p.due(25_000_000));
    assert!(p.due(25_000_000));
    assert!(p.due(25_000_000));
    assert!(!p.due(25_000_000));
    assert_eq!(p.next, 3 * FRAME_NANOS);
}

#[test]
fn settings_fall_back() {
    assert_eq!(deployment(None), "gpt-realtime-2.1-mini");
    assert_eq!(deployment(Some("  ")), "gpt-realtime-2.1-mini");
    assert_eq!(deployment(Some("mine")), "mine");
    assert_eq!(resource_name(None, "https://name.cognitiveservices.azure.com/"), "name");
    assert_eq!(resource_name(Some("other"), "https://name.x"), "other");
    assert_eq!(resource_group(None), "openai");
    assert_eq!(
        realtime_url("https://h.azure.com//", "d"),
        "wss://h.azure.com/openai/realtime?api-version=2024-10-01-preview&deployment=d"
    );
}

#[test]
fn the_key_is_asked_for_and_read() {
    assert!(key_is_fresh(2699));
    assert!(!key_is_fresh(2700));
    assert_eq!(key_args("n", "g")[4..8], ["--name", "n", "--resource-group", "g"]);
    assert_eq!(key_from(true, " abc \n", ""), Ok("abc".to_string()));
    assert_eq!(key_from(true, " \n", ""), Err("az returned an empty API key".to_string()));
    assert_eq!(
        read_key(false, &vec![], &b"no login\n".to_vec()),
        Err("az cognitiveservices account keys list failed (run `az login`): no login".to_string())
    );
    assert_eq!(read_key(true, &vec![0x61, 0xff], &vec![]), Ok("a\u{FFFD}".to_string()));
}

#[test]
fn the_session_asks_for_speech_and_all_tools() {
    let s = session_update();
    assert_eq!(s.str_at("type"), Some("session.update"));
    let session = s.get("session").expect("session");
    assert_eq!(session.str_at("voice"), Some("alloy"));
    let tools = tools_for_session();
    let tools = tools.as_list().expect("tools");
    assert_eq!(tools.len(), 29);
    for t in tools {
        assert_eq!(t.str_at("type"), Some("function"));
        assert!(t.str_at("name").is_some());
        assert!(t.get("parameters").is_some());
        assert!(t.get("inputSchema").is_none());
    }
}

#[test]
fn messages_are_told_apart() {
    let e = handle_event(&message(
        "{\"type\":\"response.function_call_arguments.done\",\"call_id\":\"c\",\"name\":\"n\",\"arguments\":\"{\\\"x\\\":1}\"}",
    ));
    match e {
        VoiceEvent::Call { call_id, name, args } => {
            assert_eq!((call_id.as_str(), name.as_str()), ("c", "n"));
            assert_eq!(args.i64_at("x"), Some(1));
        }
        _ => panic!("a call"),
    }
    let e = handle_event(&message(
        "{\"type\":\"response.function_call_arguments.done\",\"name\":\"n\"}",
    ));
    assert!(matches!(e, VoiceEvent::Nothing));
    let e = handle_event(&message("{\"type\":\"response.audio.delta\",\"delta\":\"QUI=\"}"));
    assert!(matches!(e, VoiceEvent::Audio { samples } if samples == vec![0x4241]));
    let e = handle_event(&message("{\"type\":\"response.text.delta\",\"delta\":\"hi\"}"));
    assert!(matches!(e, VoiceEvent::AssistantText { words } if words == "hi"));
    let e = handle_event(&message(
        "{\"type\":\"conversation.item.input_audio_transcription.completed\"}",
    ));
    assert!(matches!(e, VoiceEvent::UserText { heard, done: true } if heard.is_empty()));
    let e = handle_event(&message(
        "{\"type\":\"conversation.item.input_audio_transcription.delta\",\"delta\":\"a\"}",
    ));
    assert!(matches!(e, VoiceEvent::UserText { heard, done: false } if heard == "a"));
    let e = handle_event(&message("{\"type\":\"input_audio_buffer.speech_started\"}"));
    assert!(matches!(e, VoiceEvent::SpeechStarted));
    let e = handle_event(&message("{\"type\":\"response.done\"}"));
    assert!(matches!(e, VoiceEvent::AssistantDone));
    let e = handle_event(&message("{\"type\":\"error\",\"error\":{\"message\":\"bad\"}}"));
    assert!(matches!(e, VoiceEvent::Failed { message } if message == "bad"));
    let e = handle_event(&message("{\"type\":\"error\"}"));
    assert!(matches!(e, VoiceEvent::Failed { message } if message == "unknown Realtime API error"));
    assert!(matches!(handle_event(&message("[]")), VoiceEvent::Nothing));
}

#[test]
fn at_most_one_response_is_asked_for_at_a_time() {
    let mut s = Session::new();
    for id in ["a", "b", "c"] {
        let text = format!(
            "{{\"type\":\"response.function_call_arguments.done\",\"call_id\":\"{id}\",\"name\":\"n\"}}"
        );
        assert!(s.take_text(&text).1.is_none());
    }
    assert_eq!(s.calls, vec!["a", "b", "c"]);
    let sent = s.poll(&vec![
        Poll::Ready { result: Ok(Json::whole(5)) },
        Poll::Waiting,
        Poll::Ready { result: Err("no".to_string()) },
    ]);
    let kinds: Vec<&str> = sent.iter().map(|m| m.str_at("type").unwrap()).collect();
    assert_eq!(
        kinds,
        vec!["conversation.item.create", "response.create", "conversation.item.create"]
    );
    let item = sent[0].get("item").unwrap();
    assert_eq!(item.str_at("call_id"), Some("a"));
    assert_eq!(item.str_at("output"), Some("5"));
    assert_eq!(sent[2].get("item").unwrap().str_at("output"), Some("{\"error\":\"no\"}"));
    assert_eq!(s.calls, vec!["b"]);
    assert!(s.turn.active && s.turn.put_off);
    // The one that was put off follows when the response is done.
    let (_, ask) = s.take_text("{\"type\":\"response.done\"}");
    assert_eq!(ask.unwrap().str_at("type"), Some("response.create"));
    assert!(s.turn.active && !s.turn.put_off);
    let (_, ask) = s.take_text("{\"type\":\"response.done\"}");
    assert!(ask.is_none());
    assert!(!s.turn.active);
    assert!(s.poll(&vec![Poll::Gone]).is_empty());
    assert!(s.calls.is_empty());
    let (event, ask) = s.take_text("garbage");
    assert!(matches!(event, VoiceEvent::Nothing) && ask.is_none());
}

#[test]
fn sound_is_sent_once() {
    let mut waiting = vec![0x4241i16];
    let m = flush_outgoing(&mut waiting).expect("a message");
    assert_eq!(m.str_at("type"), Some("input_audio_buffer.append"));
    assert_eq!(m.str_at("audio"), Some("QUI="));
    assert!(waiting.is_empty());
    assert!(flush_outgoing(&mut waiting).is_none());
}

#[test]
fn the_handle_stops_the_call() {
    let mut h = VoiceHandle::new();
    assert!(!h.is_connected());
    h.connected = true;
    assert!(h.is_connected());
    h.stop();
    assert_eq!(h.commands, vec![VoiceCmd::Stop]);
}
