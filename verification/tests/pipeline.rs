//! Pipelines.

use dsline::error::{ChannelError, DslineError};
use dsline::pipeline::{CollectSink, IterStream, Pipeline, Sink};

fn ok_stream<T: Send + 'static>(
    items: Vec<T>,
) -> IterStream<impl Iterator<Item = Result<T, DslineError>>> {
    IterStream::new(items.into_iter().map(Ok))
}

#[test]
fn identity_passthrough() {
    let source = ok_stream(vec![1, 2, 3]);
    let sink = CollectSink::new();

    let sink = Pipeline::<i32, i32>::identity().run(source, sink).unwrap();
    assert_eq!(sink.into_items(), vec![1, 2, 3]);
}

#[test]
fn single_map_operator() {
    let source = ok_stream(vec![1, 2, 3]);
    let sink = CollectSink::new();

    let sink = Pipeline::<i32, i32>::identity()
        .pipe(|x| Ok(vec![x * 10]))
        .run(source, sink)
        .unwrap();

    assert_eq!(sink.into_items(), vec![10, 20, 30]);
}

#[test]
fn map_then_filter() {
    let source = ok_stream(vec![1, 2, 3, 4, 5]);
    let sink = CollectSink::new();

    let sink = Pipeline::<i32, i32>::identity()
        .pipe(|x| Ok(vec![x * 2]))
        .pipe(|x| Ok(if x > 5 { vec![x] } else { vec![] }))
        .run(source, sink)
        .unwrap();

    assert_eq!(sink.into_items(), vec![6, 8, 10]);
}

#[test]
fn flat_map_expansion() {
    let source = ok_stream(vec![1, 2]);
    let sink = CollectSink::new();

    let sink = Pipeline::<i32, i32>::identity()
        .pipe(|x| Ok((0..x).collect()))
        .run(source, sink)
        .unwrap();

    assert_eq!(sink.into_items(), vec![0, 0, 1]);
}

#[test]
fn filter_everything_yields_empty() {
    let source = ok_stream(vec![1i32, 2]);
    let sink: CollectSink<i32> = CollectSink::new();

    let sink = Pipeline::<i32, i32>::identity()
        .pipe(|_x| Ok(vec![]))
        .run(source, sink)
        .unwrap();

    assert!(sink.into_items().is_empty());
}

#[test]
fn type_change_across_operators() {
    let source = ok_stream(vec![1i32, 2]);
    let sink = CollectSink::new();

    let sink = Pipeline::<i32, i32>::identity()
        .pipe(|x| Ok(vec![x as u64 * 1000]))
        .pipe(|x: u64| Ok(vec![format!("v{}", x)]))
        .run(source, sink)
        .unwrap();

    assert_eq!(sink.into_items(), vec!["v1000", "v2000"]);
}

#[test]
fn chained_operators_run_in_order() {
    let source = ok_stream(vec![1, 2, 3]);
    let sink = CollectSink::new();

    let sink = Pipeline::<i32, i32>::identity()
        .pipe(|x| Ok(vec![x + 1]))
        .pipe(|x| Ok(vec![x * 10]))
        .pipe(|x| Ok(vec![x - 5]))
        .run(source, sink)
        .unwrap();

    // (1+1)*10-5=15, (2+1)*10-5=25, (3+1)*10-5=35
    assert_eq!(sink.into_items(), vec![15, 25, 35]);
}

#[test]
fn close_is_called_after_run() {
    let source = ok_stream(vec![1i32]);
    let sink = CollectSink::new();
    let sink = Pipeline::<i32, i32>::identity().run(source, sink).unwrap();
    assert_eq!(sink.into_items(), vec![1]);
}

#[test]
fn the_first_error_ends_a_run() {
    let failure = DslineError::Channel(ChannelError::BufferEmpty);
    let source = IterStream::new(vec![Ok(1), Err(failure.clone()), Ok(2)].into_iter());
    let result = Pipeline::<i32, i32>::identity().run(source, CollectSink::new());
    assert_eq!(result.err(), Some(failure));

    let result = Pipeline::<i32, i32>::identity()
        .pipe(|x| {
            if x == 2 {
                Err(DslineError::Channel(ChannelError::Closed))
            } else {
                Ok(vec![x])
            }
        })
        .run(ok_stream(vec![1, 2, 3]), CollectSink::new());
    assert_eq!(
        result.err(),
        Some(DslineError::Channel(ChannelError::Closed))
    );
}

struct Limited {
    room: usize,
    log: Vec<String>,
    closes: bool,
}

impl Sink for Limited {
    type Item = i32;

    fn poll_send(&mut self, item: i32) -> Result<(), DslineError> {
        if self.room == 0 {
            return Err(DslineError::Channel(ChannelError::BufferFull));
        }
        self.room -= 1;
        self.log.push(format!("item {item}"));
        Ok(())
    }

    fn close(&mut self) -> Result<(), DslineError> {
        self.log.push("closed".to_string());
        if self.closes {
            Ok(())
        } else {
            Err(DslineError::Channel(ChannelError::StorageIo("close")))
        }
    }
}

#[test]
fn a_sink_gets_the_items_in_order_and_is_closed_once() {
    let sink = Limited {
        room: 9,
        log: Vec::new(),
        closes: true,
    };
    let sink = Pipeline::<i32, i32>::identity()
        .pipe(|x| Ok(vec![x, -x]))
        .run(ok_stream(vec![1, 2]), sink)
        .unwrap();
    assert_eq!(
        sink.log,
        vec!["item 1", "item -1", "item 2", "item -2", "closed"]
    );
}

#[test]
fn errors_of_a_sink_are_reported() {
    let sink = Limited {
        room: 1,
        log: Vec::new(),
        closes: true,
    };
    let result = Pipeline::<i32, i32>::identity().run(ok_stream(vec![1, 2]), sink);
    assert_eq!(
        result.err(),
        Some(DslineError::Channel(ChannelError::BufferFull))
    );
    let sink = Limited {
        room: 1,
        log: Vec::new(),
        closes: false,
    };
    let result = Pipeline::<i32, i32>::identity().run(ok_stream(vec![1]), sink);
    assert_eq!(
        result.err(),
        Some(DslineError::Channel(ChannelError::StorageIo("close")))
    );
}

#[test]
fn an_empty_sink_is_the_default() {
    let sink: CollectSink<u8> = CollectSink::default();
    assert!(sink.into_items().is_empty());
}

#[test]
fn a_run_over_an_iterator_collects_everything_in_order() {
    let sink = Pipeline::identity()
        .pipe(|x: i32| Ok(vec![x, x * 10]))
        .run_over(ok_stream(vec![1, 2, 3]), CollectSink::new())
        .unwrap();
    assert_eq!(sink.into_items(), vec![1, 10, 2, 20, 3, 30]);
    let sink = Pipeline::<i32, i32>::identity()
        .run_over(ok_stream(vec![]), CollectSink::new())
        .unwrap();
    assert!(sink.into_items().is_empty());
}

#[test]
fn the_first_error_of_an_iterator_ends_a_run_over_it() {
    let first = DslineError::Channel(ChannelError::BufferEmpty);
    let second = DslineError::Channel(ChannelError::Closed);
    let answers = vec![Ok(1), Err(first.clone()), Ok(2), Err(second.clone())];
    let result = Pipeline::<i32, i32>::identity()
        .run_over(IterStream::new(answers.into_iter()), CollectSink::new());
    assert_eq!(result.err(), Some(first));
    let refused = second.clone();
    let result = Pipeline::identity()
        .pipe(move |_: i32| Err::<Vec<i32>, DslineError>(refused.clone()))
        .run_over(ok_stream(vec![1]), CollectSink::new());
    assert_eq!(result.err(), Some(second));
}
