use std::collections::VecDeque;
use std::sync::{Arc, Mutex, MutexGuard};
use vstd::prelude::*;

verus! {

#[verifier::external_type_specification]
#[verifier::external_body]
#[verifier::reject_recursive_types(T)]
pub struct ExMutex<T: ?Sized>(Mutex<T>);

#[verifier::external_type_specification]
#[verifier::external_body]
#[verifier::reject_recursive_types(T)]
pub struct ExMutexGuard<'a, T: ?Sized + 'a>(MutexGuard<'a, T>);

/// Relies on `Mutex::new`: a fresh, unlocked mutex around `t`.
pub assume_specification<T>[ Mutex::<T>::new ](t: T) -> Mutex<T>;

/// Relies on `Mutex::try_lock`: takes the lock if nobody holds it, without
/// waiting. Another handle may hold it at any moment, so nothing is promised.
#[verifier::external_body]
fn try_lock_buffer<T>(buffer: &Mutex<VecDeque<T>>) -> (r: Option<MutexGuard<'_, VecDeque<T>>>) {
    buffer.try_lock().ok()
}

/// Relies on `VecDeque::push_back`, reached through the guard. The buffer is
/// shared between handles, so its contents are not modelled.
#[verifier::external_body]
fn guard_push_back<T>(guard: &mut MutexGuard<'_, VecDeque<T>>, item: T) {
    guard.push_back(item)
}

/// Relies on `VecDeque::pop_front`, reached through the guard.
#[verifier::external_body]
fn guard_pop_front<T>(guard: &mut MutexGuard<'_, VecDeque<T>>) -> (r: Option<T>) {
    guard.pop_front()
}

/// Relies on `std::mem::take`: moves every buffered item out, oldest first,
/// and leaves the shared buffer empty.
#[verifier::external_body]
fn guard_take_all<T>(guard: &mut MutexGuard<'_, VecDeque<T>>) -> (r: VecDeque<T>) {
    std::mem::take(&mut **guard)
}

/// Producer end of a mailbox. Handles are cloned to give several producers.
#[verifier::reject_recursive_types(T)]
pub struct MessageSender<T> {
    buffer: Arc<Mutex<VecDeque<T>>>,
}

impl<T> Clone for MessageSender<T> {
    fn clone(&self) -> (r: Self) {
        MessageSender { buffer: self.buffer.clone() }
    }
}

impl<T> MessageSender<T> {
    /// Appends `message` to the mailbox without waiting. `Err(())` means the
    /// buffer was busy at that instant; the caller may retry later.
    pub fn try_send(&self, message: T) -> (r: Result<(), ()>) {
        match self.try_send_back(message) {
            Ok(()) => Ok(()),
            Err(_) => Err(()),
        }
    }

    /// As `try_send`, but a message that could not be buffered is handed back.
    pub fn try_send_back(&self, message: T) -> (r: Result<(), T>)
        ensures
            r matches Err(m) ==> m == message,
    {
        match try_lock_buffer(&*self.buffer) {
            Some(mut guard) => {
                guard_push_back(&mut guard, message);
                Ok(())
            },
            None => Err(message),
        }
    }
}

/// Consumer end of a mailbox; there is one per mailbox.
#[verifier::reject_recursive_types(T)]
pub struct MessageReceiver<T> {
    buffer: Arc<Mutex<VecDeque<T>>>,
}

impl<T> MessageReceiver<T> {
    /// Removes and returns the oldest buffered item, `Ok(None)` when there is
    /// none, or `Err(())` when the buffer was busy at that instant.
    pub fn try_receive(&self) -> (r: Result<Option<T>, ()>) {
        match try_lock_buffer(&*self.buffer) {
            Some(mut guard) => Ok(guard_pop_front(&mut guard)),
            None => Err(()),
        }
    }

    /// Removes every buffered item at once, oldest first; an empty sequence
    /// when there is none or when the buffer was busy at that instant.
    pub fn receive_all(&self) -> (r: Vec<T>) {
        let mut out: Vec<T> = Vec::new();
        proof {
            assert(out@ + Seq::<T>::empty() =~= out@);
        }
        match try_lock_buffer(&*self.buffer) {
            Some(mut guard) => {
                let mut taken = guard_take_all(&mut guard);
                let ghost all = taken@;
                while taken.len() > 0
                    invariant
                        out@ + taken@ == all,
                    decreases taken@.len(),
                {
                    if let Some(item) = taken.pop_front() {
                        out.push(item);
                        proof {
                            assert(out@ + taken@ =~= all);
                        }
                    }
                }
            },
            None => {},
        }
        out
    }
}

/// Makes a new empty mailbox and returns its two ends.
pub fn create_channel<T>() -> (r: (MessageSender<T>, MessageReceiver<T>)) {
    let buffer = Arc::new(Mutex::new(VecDeque::new()));
    let sender = MessageSender { buffer: buffer.clone() };
    let receiver = MessageReceiver { buffer };
    (sender, receiver)
}

} // verus!
