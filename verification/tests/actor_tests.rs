use flow_layout::actor::{spawn, Actor};

#[derive(Debug)]
enum HelloMsg {
    GetName,
    Exit,
}

struct HelloActor {
    name: String,
    replies: Vec<String>,
    exited: bool,
}

impl Actor<HelloMsg> for HelloActor {
    fn handle(&mut self, msg: HelloMsg) -> bool {
        match msg {
            HelloMsg::GetName => {
                self.replies.push(self.name.clone());
                true
            }
            HelloMsg::Exit => {
                self.exited = true;
                false
            }
        }
    }
}

fn hello_actor(name: &str) -> HelloActor {
    HelloActor { name: name.to_string(), replies: Vec::new(), exited: false }
}

#[test]
fn test_exit() {
    let mut unit = spawn(hello_actor("bob"));
    unit.send(HelloMsg::Exit).unwrap();
    unit.run();
    assert!(!unit.is_alive());
    let actor = unit.into_actor();
    assert!(actor.exited);
}

#[test]
fn test_shared() {
    let mut unit = spawn(hello_actor("bob"));
    // two clones of a shared handle feed the same queue
    unit.send(HelloMsg::GetName).unwrap();
    unit.send(HelloMsg::GetName).unwrap();
    unit.send(HelloMsg::Exit).unwrap();
    unit.run();
    let actor = unit.into_actor();
    assert_eq!(actor.replies.len(), 2);
    assert_eq!(actor.replies[0], "bob");
    assert_eq!(actor.replies[1], "bob");
}

#[derive(Debug)]
enum CountMsg {
    Value(u32),
    Stop,
}

struct Recorder {
    seen: Vec<u32>,
    stops: u32,
}

impl Actor<CountMsg> for Recorder {
    fn handle(&mut self, msg: CountMsg) -> bool {
        match msg {
            CountMsg::Value(v) => {
                self.seen.push(v);
                true
            }
            CountMsg::Stop => {
                self.stops += 1;
                false
            }
        }
    }
}

#[test]
fn ordinary_messages_then_stop_are_observed_in_order_then_unit_stops() {
    let mut unit = spawn(Recorder { seen: Vec::new(), stops: 0 });
    for v in 1..=5u32 {
        unit.send(CountMsg::Value(v)).unwrap();
    }
    unit.send(CountMsg::Stop).unwrap();
    // these arrive after the stop and must never be processed
    unit.send(CountMsg::Value(98)).unwrap();
    unit.send(CountMsg::Value(99)).unwrap();
    unit.run();
    assert!(!unit.is_alive());
    assert_eq!(unit.pending(), 2);
    // a terminated unit returns the message to the sender
    match unit.send(CountMsg::Value(7)) {
        Err(CountMsg::Value(7)) => {}
        _ => panic!("send to a terminated unit must hand the message back"),
    }
    let actor = unit.into_actor();
    assert_eq!(actor.seen, vec![1, 2, 3, 4, 5]);
    assert_eq!(actor.stops, 1);
}

struct Tally {
    from_a: u32,
    from_b: u32,
    total: u32,
}

#[derive(Debug)]
enum TaggedMsg {
    A(u32),
    B(u32),
}

impl Actor<TaggedMsg> for Tally {
    fn handle(&mut self, msg: TaggedMsg) -> bool {
        match msg {
            TaggedMsg::A(_) => self.from_a += 1,
            TaggedMsg::B(_) => self.from_b += 1,
        }
        self.total += 1;
        true
    }
}

#[test]
fn interleaved_senders_deliver_every_message_exactly_once() {
    let mut unit = spawn(Tally { from_a: 0, from_b: 0, total: 0 });
    // two clones of a shared handle sending interleaved messages
    for i in 0..10u32 {
        unit.send(TaggedMsg::A(i)).unwrap();
        unit.send(TaggedMsg::B(i)).unwrap();
    }
    unit.run();
    assert!(unit.is_alive());
    assert_eq!(unit.pending(), 0);
    let actor = unit.into_actor();
    assert_eq!(actor.from_a, 10);
    assert_eq!(actor.from_b, 10);
    assert_eq!(actor.total, 20);
}

#[test]
fn step_delivers_one_message_at_a_time() {
    let mut unit = spawn(Recorder { seen: Vec::new(), stops: 0 });
    unit.send(CountMsg::Value(1)).unwrap();
    unit.send(CountMsg::Value(2)).unwrap();
    assert_eq!(unit.step(), Some(true));
    assert_eq!(unit.pending(), 1);
    assert_eq!(unit.step(), Some(true));
    assert_eq!(unit.pending(), 0);
    assert_eq!(unit.step(), None);
    let actor = unit.into_actor();
    assert_eq!(actor.seen, vec![1, 2]);
    // the unit stays alive exactly while handle keeps returning true
    let mut stopper = spawn(Recorder { seen: Vec::new(), stops: 0 });
    stopper.send(CountMsg::Stop).unwrap();
    assert_eq!(stopper.step(), Some(false));
    assert!(!stopper.is_alive());
}
