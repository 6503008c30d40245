use one_brc::container::TableError;
use one_brc::ring_buffer::{channel, RingBuffer};
use one_brc::worker_pool::{Worker, CHANNEL_SIZE};

#[test]
fn a_worker_takes_what_the_ring_holds() {
    let mut ring: RingBuffer<Vec<u8>> = RingBuffer::new(8);
    let mut worker = Worker::new(String::from("out.txt"));
    assert_eq!("out.txt", worker.output());
    assert_eq!(Ok(false), worker.listen(&mut ring));
    for line in ["Tokyo;23.4", "Tokyo;18.1", "not a record", "Porto;9.0"] {
        ring.try_enqueue(line.as_bytes().to_vec()).unwrap();
    }
    assert_eq!(Ok(false), worker.listen(&mut ring));
    assert_eq!(0, ring.len());
    assert_eq!(2, worker.container().len());
    ring.try_enqueue(b"Tokyo;30.0".to_vec()).unwrap();
    ring.close();
    assert_eq!(Ok(true), worker.listen(&mut ring));
    assert_eq!(Ok(true), worker.listen(&mut ring));
    assert_eq!(b"Porto=9.0/9.0/9.0\nTokyo=18.1/23.8333/30.0\n".to_vec(), worker.write());
}

#[test]
fn the_smallest_ring_passes_one_line_at_a_time() {
    let mut ring: RingBuffer<Vec<u8>> = RingBuffer::new(CHANNEL_SIZE);
    let mut worker = Worker::new(String::new());
    let lines = ["a;1.0", "b;-2.0", "a;3.0", "a;-4.5"];
    for line in lines {
        ring.try_enqueue(line.as_bytes().to_vec()).unwrap();
        assert!(ring.try_enqueue(b"x;0.0".to_vec()).is_err());
        assert_eq!(Ok(false), worker.listen(&mut ring));
    }
    ring.close();
    assert_eq!(Ok(true), worker.listen(&mut ring));
    assert_eq!(b"a=-4.5/-0.1666/3.0\nb=-2.0/-2.0/-2.0\n".to_vec(), worker.write());
}

#[test]
fn a_shared_ring_feeds_a_worker_line_by_line() {
    let (producer, consumer) = channel::<Vec<u8>>(2);
    let mut ring: RingBuffer<Vec<u8>> = RingBuffer::new(2);
    let mut worker = Worker::new(String::new());
    let lines = ["Tokyo;23.4", "Tokyo;18.1", "Porto;9.0", "Tokyo;30.0"];
    let mut sent = 0;
    let mut closed = false;
    let mut producer = Some(producer);
    while !closed {
        while sent < lines.len() {
            match producer.as_ref().unwrap().try_enqueue(lines[sent].as_bytes().to_vec()) {
                Ok(()) => sent += 1,
                Err(back) => {
                    assert_eq!(lines[sent].as_bytes(), back.as_slice());
                    break;
                }
            }
        }
        if sent == lines.len() {
            if let Some(end) = producer.take() {
                end.close();
            }
        }
        loop {
            let got = consumer.try_dequeue();
            if got.is_closed() {
                closed = true;
                break;
            }
            match got.into_option() {
                Some(line) => {
                    ring.try_enqueue(line).unwrap();
                    assert_eq!(Ok(false), worker.listen(&mut ring));
                }
                None => break,
            }
        }
    }
    assert_eq!(b"Porto=9.0/9.0/9.0\nTokyo=18.1/23.8333/30.0\n".to_vec(), worker.write());
}

#[test]
fn a_worker_stops_at_what_its_table_cannot_take() {
    let mut ring: RingBuffer<Vec<u8>> = RingBuffer::new(2000);
    let mut worker = Worker::new(String::new());
    for k in 0..1025 {
        ring.try_enqueue(format!("key{};1.0", k).into_bytes()).unwrap();
    }
    ring.try_enqueue(b"key0;2.0".to_vec()).unwrap();
    assert_eq!(Err(TableError::Full), worker.listen(&mut ring));
    assert_eq!(1024, worker.container().len());
    // The buffer that did not fit is gone; what was behind it is still there.
    assert_eq!(1, ring.len());
    assert_eq!(Ok(false), worker.listen(&mut ring));
    assert_eq!(2, worker.container().get(b"key0").unwrap().count());
}
