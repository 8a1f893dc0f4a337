use vstd::prelude::*;

verus! {

/// Settings for embedding a stream of images.
#[derive(Clone, Debug)]
pub struct ImageEmbedConfig {
    /// How many embeddings are buffered before they are handed on.
    pub buffer_size: Option<usize>,
}

impl ImageEmbedConfig {
    pub fn new(buffer_size: Option<usize>) -> (r: Self)
        ensures
            r.buffer_size == buffer_size,
    {
        ImageEmbedConfig { buffer_size }
    }
}

impl Default for ImageEmbedConfig {
    fn default() -> (r: Self)
        ensures
            r.buffer_size == Some(100usize),
    {
        ImageEmbedConfig { buffer_size: Some(100) }
    }
}

} // verus!
