//! Image texture lookups on decoded RGB pixel rows.
use vstd::prelude::*;

verus! {

/// An RGB image, rows top first, three bytes per pixel.
pub struct ImageTexture {
    pub width: usize,
    pub height: usize,
    pub data: Vec<u8>,
}

pub open spec fn clamp_index(i: int, n: int) -> int {
    if i < n {
        i
    } else {
        n - 1
    }
}

impl ImageTexture {
    pub open spec fn wf(self) -> bool {
        self.data.len() == 3 * self.width * self.height
    }

    /// Byte offset of pixel `(x, y)`.
    pub open spec fn offset(self, x: int, y: int) -> int {
        3 * (y * self.width + x)
    }

    /// Wraps decoded pixels; `None` unless `data` holds exactly three bytes
    /// for each of the `width * height` pixels.
    pub fn from_rgb(width: usize, height: usize, data: Vec<u8>) -> (r: Option<ImageTexture>)
        ensures
            r is Some <==> data.len() == 3 * width * height,
            r matches Some(t) ==> t.width == width && t.height == height && t.data@ == data@
                && t.wf(),
    {
        let n = width.checked_mul(height);
        match n {
            Some(n) => {
                let m = n.checked_mul(3);
                match m {
                    Some(m) => {
                        proof {
                            assert(3 * width * height == m) by (nonlinear_arith)
                                requires
                                    n == width * height,
                                    m == n * 3,
                            ;
                        }
                        if m == data.len() {
                            Some(ImageTexture { width, height, data })
                        } else {
                            None
                        }
                    },
                    None => {
                        proof {
                            assert(3 * width * height > usize::MAX) by (nonlinear_arith)
                                requires
                                    n == width * height,
                                    n * 3 > usize::MAX,
                            ;
                        }
                        None
                    },
                }
            },
            None => {
                proof {
                    if width > 0 {
                        assert(3 * width * height >= width * height) by (nonlinear_arith)
                            requires
                                width > 0,
                        ;
                    }
                }
                None
            },
        }
    }

    /// The colour of pixel `(x, y)`, each coordinate clamped to the last
    /// column or row; `None` for an image without pixels.
    pub fn pixel(&self, x: usize, y: usize) -> (r: Option<[u8; 3]>)
        requires
            self.wf(),
        ensures
            r is None <==> self.width == 0 || self.height == 0,
            r matches Some(c) ==> {
                let o = self.offset(
                    clamp_index(x as int, self.width as int),
                    clamp_index(y as int, self.height as int),
                );
                c@ == seq![self.data@[o], self.data@[o + 1], self.data@[o + 2]]
            },
    {
        if self.width == 0 || self.height == 0 {
            return None;
        }
        let cx = if x < self.width {
            x
        } else {
            self.width - 1
        };
        let cy = if y < self.height {
            y
        } else {
            self.height - 1
        };
        let w = self.width;
        let h = self.height;
        proof {
            assert(3 * (cy * w + cx) + 2 < 3 * w * h) by (nonlinear_arith)
                requires
                    cx < w,
                    cy < h,
            ;
        }
        let o = 3 * (cy * w + cx);
        let c = [self.data[o], self.data[o + 1], self.data[o + 2]];
        assert(c@ =~= seq![self.data@[o as int], self.data@[o + 1], self.data@[o + 2]]);
        Some(c)
    }
}

} // verus!
