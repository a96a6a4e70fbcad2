//! Log output beside a progress bar.

use crate::text::{strip_trailing, strip_trailing_char};
use vstd::prelude::*;

verus! {

/// A writer for log output that knows whether a progress bar is active.
pub struct ProgressWriter<B> {
    bar: Option<B>,
}

impl<B> View for ProgressWriter<B> {
    type V = Option<B>;

    closed spec fn view(&self) -> Option<B> {
        self.bar
    }
}

/// Where a piece of log output goes.
pub enum LogRoute {
    /// To the progress bar, as one line.
    Bar(String),
    /// Nowhere.
    Nowhere,
    /// To the error output, as it is.
    Stderr,
}

impl<B> ProgressWriter<B> {
    /// A writer without a progress bar.
    pub fn new() -> (w: ProgressWriter<B>)
        ensures
            w@ == None::<B>,
    {
        ProgressWriter { bar: None }
    }

    /// The active progress bar.
    pub fn bar(&self) -> (r: Option<&B>)
        ensures
            match r {
                Some(bar) => self@ == Some(*bar),
                None => self@ is None,
            },
    {
        match &self.bar {
            Some(bar) => Some(bar),
            None => None,
        }
    }

    /// Where `text` goes. The progress bar ends its lines itself.
    pub fn route(&self, text: &str) -> (r: LogRoute)
        ensures
            match r {
                LogRoute::Bar(line) => self@ is Some && line@ == strip_trailing(text@, '\n')
                    && line@.len() > 0,
                LogRoute::Nowhere => self@ is Some && strip_trailing(text@, '\n').len() == 0,
                LogRoute::Stderr => self@ is None,
            },
    {
        match &self.bar {
            Some(_) => {
                let line = strip_trailing_char(text, '\n');
                if line.as_str().is_empty() {
                    LogRoute::Nowhere
                } else {
                    LogRoute::Bar(line)
                }
            },
            None => LogRoute::Stderr,
        }
    }
}

/// Makes `bar` the active progress bar.
pub fn set_progress_bar<B>(writer: &mut ProgressWriter<B>, bar: B)
    ensures
        final(writer)@ == Some(bar),
{
    writer.bar = Some(bar);
}

/// Log output goes to the error output again.
pub fn clear_progress_bar<B>(writer: &mut ProgressWriter<B>)
    ensures
        final(writer)@ == None::<B>,
{
    writer.bar = None;
}

} // verus!
