use place_canvas::canvas::Canvas;
use place_canvas::engine::ClientSender;
use place_canvas::engine::Engine;
use place_canvas::engine::UpdateMsg;
use place_canvas::messages::ClientMessage;

fn join(id: u64) -> UpdateMsg {
    UpdateMsg::FullUpdate(ClientSender { id, id_info: format!("client {}", id) })
}

fn white_rgba(pixels: usize) -> Vec<u8> {
    vec![255u8; pixels * 4]
}

#[test]
fn blank_join_sends_full_update() {
    let mut engine = Engine::new(Canvas::blank(500, 500));
    let out = engine.process_batch(vec![join(1)]);
    assert_eq!(out.joins.len(), 1);
    assert_eq!(out.joins[0].0, 1);
    match &out.joins[0].1 {
        ClientMessage::FullUpdate { w, h, data } => {
            assert_eq!((*w, *h), (500, 500));
            assert_eq!(*data, base64::encode(white_rgba(500 * 500)));
        }
        _ => panic!("expected a full update"),
    }
    assert!(out.regions.is_empty());
    assert!(out.broadcasts.is_empty());
    assert_eq!(engine.clients.len(), 1);
}

#[test]
fn joins_in_one_batch_share_the_snapshot() {
    let mut engine = Engine::new(Canvas::blank(10, 10));
    let out = engine.process_batch(vec![join(1), join(2)]);
    assert_eq!(out.joins.len(), 2);
    let data1 = match &out.joins[0].1 {
        ClientMessage::FullUpdate { data, .. } => data.clone(),
        _ => panic!("expected a full update"),
    };
    let data2 = match &out.joins[1].1 {
        ClientMessage::FullUpdate { data, .. } => data.clone(),
        _ => panic!("expected a full update"),
    };
    assert_eq!(data1, data2);
    assert_eq!(engine.clients.len(), 2);
}

#[test]
fn single_pixel_reaches_both_clients_regions() {
    let mut engine = Engine::new(Canvas::blank(500, 500));
    engine.process_batch(vec![join(1), join(2)]);
    assert_eq!(engine.clients.len(), 2);
    let out = engine.process_batch(vec![UpdateMsg::SetPixel { x: 10, y: 20, r: 1, g: 2, b: 3 }]);
    assert_eq!(out.regions.len(), 1);
    let r = &out.regions[0];
    assert!(r.x <= 10 && 10 < r.x + r.w && r.y <= 20 && 20 < r.y + r.h);
    let rgba = base64::decode(&r.data).unwrap();
    assert_eq!(rgba.len(), (r.w * r.h * 4) as usize);
    let off = (((20 - r.y) * r.w + (10 - r.x)) * 4) as usize;
    assert_eq!(&rgba[off..off + 4], &[1, 2, 3, 255]);
}

#[test]
fn density_trigger_single_region_frame() {
    let mut engine = Engine::new(Canvas::blank(4, 4));
    let mut batch = Vec::new();
    for y in 0..4 {
        for x in 0..4 {
            batch.push(UpdateMsg::SetPixel { x, y, r: 5, g: 6, b: 7 });
        }
    }
    let out = engine.process_batch(batch);
    assert_eq!(out.regions.len(), 1);
    let r = &out.regions[0];
    assert_eq!((r.x, r.y, r.w, r.h), (0, 0, 4, 4));
    let rgba = base64::decode(&r.data).unwrap();
    assert_eq!(rgba, vec![5, 6, 7, 255].repeat(16));
}

#[test]
fn resize_broadcasts_new_full_update() {
    let mut engine = Engine::new(Canvas::blank(100, 100));
    engine.process_batch(vec![UpdateMsg::SetPixel { x: 50, y: 50, r: 255, g: 0, b: 0 }]);
    let out = engine.process_batch(vec![UpdateMsg::SetSize(200)]);
    assert!(out.regions.is_empty(), "a resize clears the dirty set");
    assert_eq!(out.broadcasts.len(), 1);
    match &out.broadcasts[0] {
        ClientMessage::FullUpdate { w, h, data } => {
            assert_eq!((*w, *h), (200, 200));
            let rgba = base64::decode(data).unwrap();
            let red = ((50 * 200 + 50) * 4) as usize;
            assert_eq!(&rgba[red..red + 4], &[255, 0, 0, 255]);
            let white = ((150 * 200 + 150) * 4) as usize;
            assert_eq!(&rgba[white..white + 4], &[255, 255, 255, 255]);
        }
        _ => panic!("expected a full update"),
    }
    assert_eq!(engine.canvas.width, 200);
    assert_eq!(engine.canvas.height, 200);
}

#[test]
fn chat_is_trimmed_and_empty_chat_dropped() {
    let mut engine = Engine::new(Canvas::blank(4, 4));
    let out = engine.process_batch(vec![
        UpdateMsg::ChatMessage { x_bits: 1, y_bits: 2, text: "  hi there  ".to_string() },
        UpdateMsg::ChatMessage { x_bits: 3, y_bits: 4, text: "   ".to_string() },
    ]);
    assert_eq!(out.broadcasts.len(), 1);
    match &out.broadcasts[0] {
        ClientMessage::ChatMessage { x_bits, y_bits, text, is_admin } => {
            assert_eq!((*x_bits, *y_bits), (1, 2));
            assert_eq!(text, "hi there");
            assert!(!is_admin);
        }
        _ => panic!("expected a chat message"),
    }
}

#[test]
fn admin_broadcast_is_queued() {
    let mut engine = Engine::new(Canvas::blank(4, 4));
    let out = engine.process_batch(vec![UpdateMsg::Broadcast { text: "hello all".to_string() }]);
    assert_eq!(out.broadcasts.len(), 1);
    match &out.broadcasts[0] {
        ClientMessage::Broadcast { text } => assert_eq!(text, "hello all"),
        _ => panic!("expected a broadcast"),
    }
}

#[test]
fn remove_is_idempotent() {
    let mut engine = Engine::new(Canvas::blank(4, 4));
    engine.process_batch(vec![join(1), join(2)]);
    engine.process_batch(vec![UpdateMsg::Remove(1)]);
    assert_eq!(engine.clients.len(), 1);
    assert_eq!(engine.clients[0].id, 2);
    engine.process_batch(vec![UpdateMsg::Remove(1)]);
    assert_eq!(engine.clients.len(), 1);
}

#[test]
fn save_after_interval_when_dirty() {
    let mut engine = Engine::new(Canvas::blank(4, 4));
    assert!(!engine.should_save(100));
    engine.process_batch(vec![UpdateMsg::SetPixel { x: 0, y: 0, r: 0, g: 0, b: 0 }]);
    assert!(!engine.should_save(5));
    assert!(engine.should_save(6));
    engine.mark_saved();
    assert!(!engine.should_save(100));
}
