use mirage::task::{AsAsync, Async, Await, Generator, GeneratorState};

struct Countdown {
    left: u32,
}

impl Generator for Countdown {
    type Yield = ();
    type Return = u32;

    fn resumes_to(&self, post: Self, out: GeneratorState<(), u32>) -> bool {
        match out {
            GeneratorState::Yielded(()) => self.left > 0 && post.left == self.left - 1,
            GeneratorState::Complete(v) => self.left == 0 && post.left == 0 && v == 42,
        }
    }

    fn resume(&mut self) -> GeneratorState<(), u32> {
        if self.left == 0 {
            GeneratorState::Complete(42)
        } else {
            self.left -= 1;
            GeneratorState::Yielded(())
        }
    }
}

#[test]
fn suspension_becomes_not_ready() {
    let a: Await<u8> = Await::from(GeneratorState::Yielded(()));
    assert!(matches!(a, Await::NotReady));
}

#[test]
fn completion_hands_over_the_value() {
    let a: Await<u8> = Await::from(GeneratorState::Complete(7));
    assert!(matches!(a, Await::Done(7)));
}

#[test]
fn as_async_polls_until_generator_completes() {
    let mut t = AsAsync(Countdown { left: 2 });
    assert!(matches!(t.poll(), Await::NotReady));
    assert!(matches!(t.poll(), Await::NotReady));
    assert!(matches!(t.poll(), Await::Done(42)));
}

#[test]
fn resumption_steps_describe_the_countdown() {
    let c = Countdown { left: 1 };
    assert!(c.resumes_to(Countdown { left: 0 }, GeneratorState::Yielded(())));
    assert!(!c.resumes_to(Countdown { left: 1 }, GeneratorState::Complete(42)));
}

#[test]
fn boxed_generator_is_a_task() {
    let mut t: Box<Countdown> = Box::new(Countdown { left: 1 });
    assert!(matches!(t.poll(), Await::NotReady));
    assert!(matches!(t.poll(), Await::Done(42)));
}
