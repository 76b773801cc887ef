use vstd::prelude::*;

verus! {

/// A grid cell, named by its column `x` and its row `y`.
#[derive(Copy, Clone, PartialEq, Eq, Debug, Structural)]
pub struct Coordinate {
    pub x: usize,
    pub y: usize,
}

impl View for Coordinate {
    type V = (int, int);

    open spec fn view(&self) -> (int, int) {
        (self.x as int, self.y as int)
    }
}

impl Coordinate {
    /// The cell in column `x` and row `y`.
    pub fn new(x: usize, y: usize) -> (c: Self)
        ensures
            c == (Coordinate { x, y }),
    {
        Coordinate { x: x, y: y }
    }
}

/// A rectangular maze: `grid[x][y]` is 1 where the cell in column `x` and row
/// `y` can be walked on and 0 where it is a wall. The start and the end are
/// cells of the grid; either may be a wall. From a start that is a wall no
/// other cell can be reached.
pub struct Maze {
    pub width: usize,
    pub height: usize,
    pub grid: Vec<Vec<u8>>,
    pub start: Coordinate,
    pub end: Coordinate,
}

/// The colour of pixel `i` of an image stored as three bytes (red, green,
/// blue) per pixel.
pub open spec fn pixel(pixels: Seq<u8>, i: int) -> (u8, u8, u8) {
    (pixels[3 * i], pixels[3 * i + 1], pixels[3 * i + 2])
}

/// The colour that marks the start of a maze.
pub open spec fn red() -> (u8, u8, u8) {
    (255u8, 0u8, 0u8)
}

/// The colour that marks the end of a maze.
pub open spec fn blue() -> (u8, u8, u8) {
    (0u8, 0u8, 255u8)
}

/// The colour of a wall.
pub open spec fn black() -> (u8, u8, u8) {
    (0u8, 0u8, 0u8)
}

/// The colour of a cell that can be walked on.
pub open spec fn white() -> (u8, u8, u8) {
    (255u8, 255u8, 255u8)
}

/// Pixel `i` is the first pixel of colour `rgb` among the whole pixels of
/// `pixels`, read row by row.
pub open spec fn first_pixel(pixels: Seq<u8>, rgb: (u8, u8, u8), i: int) -> bool {
    &&& 0 <= i < pixels.len() / 3
    &&& pixel(pixels, i) == rgb
    &&& forall|j: int| 0 <= j < i ==> pixel(pixels, j) != rgb
}

/// The cell of the first pixel of colour `rgb`, in an image `width` pixels
/// wide, or `None` where no pixel has that colour.
pub open spec fn marker(width: usize, pixels: Seq<u8>, rgb: (u8, u8, u8)) -> Option<Coordinate> {
    if exists|i: int| first_pixel(pixels, rgb, i) {
        let i = choose|i: int| first_pixel(pixels, rgb, i);
        Some(Coordinate { x: (i % width as int) as usize, y: (i / width as int) as usize })
    } else {
        None
    }
}

fn find_marker(width: usize, pixels: &Vec<u8>, r: u8, g: u8, b: u8) -> (found: Option<Coordinate>)
    requires
        width > 0,
    ensures
        found == marker(width, pixels@, (r, g, b)),
{
    let count: usize = pixels.len() / 3;
    let mut i: usize = 0;
    while i < count
        invariant
            width > 0,
            count == pixels.len() / 3,
            3 * count <= pixels.len(),
            i <= count,
            forall|j: int| 0 <= j < i ==> pixel(pixels@, j) != (r, g, b),
        decreases count - i,
    {
        if pixels[3 * i] == r && pixels[3 * i + 1] == g && pixels[3 * i + 2] == b {
            proof {
                assert(first_pixel(pixels@, (r, g, b), i as int));
                let k = choose|k: int| first_pixel(pixels@, (r, g, b), k);
                assert(k == i) by {
                    if k < i {
                        assert(pixel(pixels@, k) != (r, g, b));
                    }
                    if i < k {
                        assert(pixel(pixels@, i as int) != (r, g, b));
                    }
                }
            }
            return Some(Coordinate::new(i % width, i / width));
        }
        i = i + 1;
    }
    assert forall|k: int| !first_pixel(pixels@, (r, g, b), k) by {
        if first_pixel(pixels@, (r, g, b), k) {
            assert(pixel(pixels@, k) != (r, g, b));
        }
    }
    None
}

/// Finds the cell marked as the start: the first pure red pixel.
pub fn find_start(width: usize, pixels: &Vec<u8>) -> (found: Option<Coordinate>)
    requires
        width > 0,
    ensures
        found == marker(width, pixels@, red()),
{
    find_marker(width, pixels, 255, 0, 0)
}

/// Finds the cell marked as the end: the first pure blue pixel.
pub fn find_end(width: usize, pixels: &Vec<u8>) -> (found: Option<Coordinate>)
    requires
        width > 0,
    ensures
        found == marker(width, pixels@, blue()),
{
    find_marker(width, pixels, 0, 0, 255)
}

/// Cell (`x`, `y`) of a grid `w` wide and `h` high has the index
/// `y * w + x` among the grid's cells read row by row, and the index gives
/// the cell back.
pub proof fn lemma_cell_index(w: int, h: int, x: int, y: int)
    requires
        0 <= x < w,
        0 <= y < h,
    ensures
        0 <= y * w + x < w * h,
        (y * w + x) % w == x,
        (y * w + x) / w == y,
{
    assert(0 <= y * w && y * w + w <= w * h) by (nonlinear_arith)
        requires
            0 <= y < h,
            0 < w,
    ;
    vstd::arithmetic::div_mod::lemma_fundamental_div_mod_converse(y * w + x, w, y, x);
}

/// Index `i` among the cells of a grid `w` wide and `h` high, read row by
/// row, names the cell in column `i % w` and row `i / w`.
pub proof fn lemma_index_cell(w: int, h: int, i: int)
    requires
        0 < w,
        0 <= i < w * h,
    ensures
        0 <= i % w < w,
        0 <= i / w < h,
        (i / w) * w + i % w == i,
{
    vstd::arithmetic::div_mod::lemma_fundamental_div_mod(i, w);
    vstd::arithmetic::div_mod::lemma_mod_pos_bound(i, w);
    vstd::arithmetic::div_mod::lemma_multiply_divide_lt(i, w, h);
    vstd::arithmetic::div_mod::lemma_div_pos_is_pos(i, w);
    assert(w * (i / w) == (i / w) * w) by (nonlinear_arith);
}

/// Why a maze is refused.
#[derive(Copy, Clone, PartialEq, Eq, Debug, Structural)]
pub enum MazeError {
    /// The maze has no columns.
    ZeroWidth,
    /// The maze has no rows.
    ZeroHeight,
    /// The grid does not hold `width` columns of `height` cells each.
    GridShape,
    /// A cell of the grid holds a value other than 0 and 1.
    CellValue,
    /// The start lies outside the grid.
    StartOutside,
    /// The end lies outside the grid.
    EndOutside,
    /// An image does not hold three bytes for each of its pixels.
    ImageSize,
}

/// The first reason, if any, for which an image of `width` by `height`
/// pixels, stored in `pixels`, is refused: it has no columns, it has no rows,
/// or `pixels` does not hold three bytes for each pixel.
pub open spec fn image_fault(width: usize, height: usize, pixels: Seq<u8>) -> Option<MazeError> {
    if width == 0 {
        Some(MazeError::ZeroWidth)
    } else if height == 0 {
        Some(MazeError::ZeroHeight)
    } else if pixels.len() != 3 * (width * height) {
        Some(MazeError::ImageSize)
    } else {
        None
    }
}

impl MazeError {
    /// What the error says.
    pub open spec fn text(self) -> Seq<char> {
        match self {
            MazeError::ZeroWidth => "the maze has no columns"@,
            MazeError::ZeroHeight => "the maze has no rows"@,
            MazeError::GridShape => "the grid does not have the width and height of the maze"@,
            MazeError::CellValue => "a cell of the grid holds a value other than 0 and 1"@,
            MazeError::StartOutside => "the start lies outside the grid"@,
            MazeError::EndOutside => "the end lies outside the grid"@,
            MazeError::ImageSize => "the image does not hold three bytes for each pixel"@,
        }
    }

    /// Says in words why the maze is refused.
    pub fn message(self) -> (message: &'static str)
        ensures
            message@ == self.text(),
    {
        match self {
            MazeError::ZeroWidth => "the maze has no columns",
            MazeError::ZeroHeight => "the maze has no rows",
            MazeError::GridShape => "the grid does not have the width and height of the maze",
            MazeError::CellValue => "a cell of the grid holds a value other than 0 and 1",
            MazeError::StartOutside => "the start lies outside the grid",
            MazeError::EndOutside => "the end lies outside the grid",
            MazeError::ImageSize => "the image does not hold three bytes for each pixel",
        }
    }
}

impl Maze {
    /// Whether `cell` lies in the grid.
    pub open spec fn inside(&self, cell: (int, int)) -> bool {
        0 <= cell.0 < self.width && 0 <= cell.1 < self.height
    }

    /// The grid holds `width` columns of `height` cells each.
    pub open spec fn shaped(&self) -> bool {
        &&& self.grid@.len() == self.width
        &&& forall|x: int| 0 <= x < self.width ==> (#[trigger] self.grid@[x])@.len() == self.height
    }

    /// Every cell of the grid holds 0 or 1.
    pub open spec fn binary(&self) -> bool {
        forall|x: int, y: int|
            0 <= x < self.width && 0 <= y < self.height ==> #[trigger] self.grid@[x]@[y] <= 1
    }

    /// What holds of every maze that can be solved: it has cells, its grid
    /// has the shape that `width` and `height` give and holds only 0 and 1,
    /// and its start and end lie in the grid.
    pub open spec fn well_formed(&self) -> bool {
        &&& self.width > 0
        &&& self.height > 0
        &&& self.shaped()
        &&& self.binary()
        &&& self.inside(self.start@)
        &&& self.inside(self.end@)
    }

    /// Whether `cell` lies in the grid and can be walked on.
    pub open spec fn passable(&self, cell: (int, int)) -> bool {
        self.inside(cell) && self.grid@[cell.0]@[cell.1] == 1
    }

    /// The first reason, if any, for which the maze is refused.
    pub open spec fn fault(&self) -> Option<MazeError> {
        if self.width == 0 {
            Some(MazeError::ZeroWidth)
        } else if self.height == 0 {
            Some(MazeError::ZeroHeight)
        } else if !self.inside(self.start@) {
            Some(MazeError::StartOutside)
        } else if !self.inside(self.end@) {
            Some(MazeError::EndOutside)
        } else if !self.shaped() {
            Some(MazeError::GridShape)
        } else if !self.binary() {
            Some(MazeError::CellValue)
        } else {
            None
        }
    }

    /// The colour in which `cell` is drawn: the start red, the end blue, a
    /// wall black and every other cell white.
    pub open spec fn colour(&self, cell: (int, int)) -> (u8, u8, u8) {
        if cell == self.start@ {
            red()
        } else if cell == self.end@ {
            blue()
        } else if self.grid@[cell.0]@[cell.1] == 0 {
            black()
        } else {
            white()
        }
    }

    /// Whether the maze is the one that an image of `width` by `height`
    /// pixels shows: it has the image's width and height; a cell is a wall
    /// where its pixel is black and can be walked on where it is not; the
    /// start is the cell of the first red pixel, or the top left cell where
    /// no pixel is red; and the end is the cell of the first blue pixel, or
    /// the bottom right cell where no pixel is blue.
    pub open spec fn shows(&self, width: usize, height: usize, pixels: Seq<u8>) -> bool {
        &&& self.width == width
        &&& self.height == height
        &&& self.shaped()
        &&& forall|x: int, y: int|
            0 <= x < width && 0 <= y < height ==> #[trigger] self.grid@[x]@[y] == (if pixel(
                pixels,
                y * width + x,
            ) == black() {
                0u8
            } else {
                1u8
            })
        &&& self.start == (match marker(width, pixels, red()) {
            Some(c) => c,
            None => Coordinate { x: 0, y: 0 },
        })
        &&& self.end == (match marker(width, pixels, blue()) {
            Some(c) => c,
            None => Coordinate { x: (width - 1) as usize, y: (height - 1) as usize },
        })
    }

    /// Reads a maze from an image of `width` by `height` pixels, stored row
    /// by row from the top with three bytes per pixel. A black pixel is a
    /// wall and every other pixel can be walked on. The first red pixel is the
    /// start and the first blue pixel the end; without them the start is the
    /// top left cell and the end the bottom right one.
    pub fn from_image(width: usize, height: usize, pixels: &Vec<u8>) -> (maze: Self)
        requires
            width > 0,
            height > 0,
            pixels@.len() == 3 * (width * height),
        ensures
            maze.well_formed(),
            maze.shows(width, height, pixels@),
    {
        let start = match find_start(width, pixels) {
            Some(c) => c,
            None => Coordinate::new(0, 0),
        };
        let end = match find_end(width, pixels) {
            Some(c) => c,
            None => Coordinate::new(width - 1, height - 1),
        };
        proof {
            if marker(width, pixels@, red()) is Some {
                let i = choose|i: int| first_pixel(pixels@, red(), i);
                lemma_index_cell(width as int, height as int, i);
            }
            if marker(width, pixels@, blue()) is Some {
                let i = choose|i: int| first_pixel(pixels@, blue(), i);
                lemma_index_cell(width as int, height as int, i);
            }
        }
        let mut grid: Vec<Vec<u8>> = Vec::with_capacity(width);
        let mut x: usize = 0;
        while x < width
            invariant
                x <= width,
                pixels.len() == 3 * (width * height),
                grid@.len() == x,
                forall|i: int| 0 <= i < x ==> (#[trigger] grid@[i])@.len() == height,
                forall|i: int, j: int|
                    0 <= i < x && 0 <= j < height ==> #[trigger] grid@[i]@[j] == (if pixel(
                        pixels@,
                        j * width + i,
                    ) == black() {
                        0u8
                    } else {
                        1u8
                    }),
            decreases width - x,
        {
            let mut column: Vec<u8> = Vec::with_capacity(height);
            let mut y: usize = 0;
            while y < height
                invariant
                    x < width,
                    y <= height,
                    pixels.len() == 3 * (width * height),
                    column@.len() == y,
                    forall|j: int|
                        0 <= j < y ==> #[trigger] column@[j] == (if pixel(pixels@, j * width + x)
                            == black() {
                            0u8
                        } else {
                            1u8
                        }),
                decreases height - y,
            {
                proof {
                    lemma_cell_index(width as int, height as int, x as int, y as int);
                }
                let at: usize = 3 * (y * width + x);
                let wall = pixels[at] == 0 && pixels[at + 1] == 0 && pixels[at + 2] == 0;
                column.push(if wall { 0 } else { 1 });
                y = y + 1;
            }
            grid.push(column);
            x = x + 1;
        }
        Maze { width: width, height: height, grid: grid, start: start, end: end }
    }

    /// Reads a maze from an image as `from_image` does, after testing that
    /// the image has pixels and that `pixels` holds three bytes for each of
    /// them. An image that fails the test is refused, and no maze is made of
    /// it.
    pub fn try_from_image(width: usize, height: usize, pixels: &Vec<u8>) -> (result: Result<
        Self,
        MazeError,
    >)
        ensures
            match result {
                Ok(maze) => {
                    &&& image_fault(width, height, pixels@) is None
                    &&& maze.well_formed()
                    &&& maze.shows(width, height, pixels@)
                },
                Err(fault) => image_fault(width, height, pixels@) == Some(fault),
            },
    {
        if width == 0 {
            return Err(MazeError::ZeroWidth);
        }
        if height == 0 {
            return Err(MazeError::ZeroHeight);
        }
        let given = pixels.len();
        let needed = match width.checked_mul(height) {
            Some(cells) => cells.checked_mul(3),
            None => None,
        };
        if needed == Some(given) {
            Ok(Maze::from_image(width, height, pixels))
        } else {
            Err(MazeError::ImageSize)
        }
    }

    /// Draws the maze as an image of `width` by `height` pixels, stored row
    /// by row from the top with three bytes per pixel.
    pub fn as_image(&self) -> (image: Vec<u8>)
        requires
            self.shaped(),
        ensures
            image@.len() == 3 * (self.width * self.height),
            forall|x: int, y: int|
                0 <= x < self.width && 0 <= y < self.height ==> pixel(image@, y * self.width + x)
                    == self.colour((x, y)),
    {
        let mut image: Vec<u8> = Vec::new();
        let mut y: usize = 0;
        while y < self.height
            invariant
                self.shaped(),
                y <= self.height,
                image@.len() == 3 * (y * self.width),
                forall|i: int, j: int|
                    0 <= i < self.width && 0 <= j < y ==> pixel(image@, j * self.width + i)
                        == self.colour((i, j)),
            decreases self.height - y,
        {
            let mut x: usize = 0;
            while x < self.width
                invariant
                    self.shaped(),
                    y < self.height,
                    x <= self.width,
                    image@.len() == 3 * (y * self.width + x),
                    forall|i: int, j: int|
                        0 <= i < self.width && 0 <= j < y ==> pixel(image@, j * self.width + i)
                            == self.colour((i, j)),
                    forall|i: int|
                        0 <= i < x ==> pixel(image@, y * self.width + i) == self.colour(
                            (i, y as int),
                        ),
                decreases self.width - x,
            {
                let ghost before = image@;
                let (r, g, b): (u8, u8, u8) = if self.start.x == x && self.start.y == y {
                    (255, 0, 0)
                } else if self.end.x == x && self.end.y == y {
                    (0, 0, 255)
                } else if self.grid[x][y] == 0 {
                    (0, 0, 0)
                } else {
                    (255, 255, 255)
                };
                image.push(r);
                image.push(g);
                image.push(b);
                proof {
                    assert((r, g, b) == self.colour((x as int, y as int)));
                    assert forall|i: int, j: int| 0 <= i < self.width && 0 <= j < y implies pixel(
                        image@,
                        j * self.width + i,
                    ) == self.colour((i, j)) by {
                        lemma_cell_index(self.width as int, y as int, i, j);
                        assert(self.width * y == y * self.width) by (nonlinear_arith);
                        assert(pixel(before, j * self.width + i) == self.colour((i, j)));
                    }
                    assert forall|i: int| 0 <= i < x + 1 implies pixel(
                        image@,
                        y * self.width + i,
                    ) == self.colour((i, y as int)) by {
                        if i < x {
                            assert(pixel(before, y * self.width + i) == self.colour((i, y as int)));
                        }
                    }
                }
                x = x + 1;
            }
            proof {
                assert((y + 1) * self.width == y * self.width + self.width) by (nonlinear_arith);
            }
            y = y + 1;
        }
        proof {
            assert(self.height * self.width == self.width * self.height) by (nonlinear_arith);
        }
        image
    }

    /// Tells whether the maze can be solved, and if not, why: a maze passes
    /// exactly when it is well formed.
    pub fn check(&self) -> (result: Result<(), MazeError>)
        ensures
            result is Ok <==> self.well_formed(),
            result == (match self.fault() {
                Some(e) => Err(e),
                None => Ok(()),
            }),
    {
        if self.width == 0 {
            return Err(MazeError::ZeroWidth);
        }
        if self.height == 0 {
            return Err(MazeError::ZeroHeight);
        }
        if self.start.x >= self.width || self.start.y >= self.height {
            return Err(MazeError::StartOutside);
        }
        if self.end.x >= self.width || self.end.y >= self.height {
            return Err(MazeError::EndOutside);
        }
        if self.grid.len() != self.width {
            return Err(MazeError::GridShape);
        }
        let mut x: usize = 0;
        while x < self.width
            invariant
                x <= self.width,
                self.height > 0,
                self.inside(self.start@),
                self.inside(self.end@),
                self.grid@.len() == self.width,
                forall|i: int| 0 <= i < x ==> (#[trigger] self.grid@[i])@.len() == self.height,
            decreases self.width - x,
        {
            if self.grid[x].len() != self.height {
                return Err(MazeError::GridShape);
            }
            x = x + 1;
        }
        let mut x: usize = 0;
        while x < self.width
            invariant
                x <= self.width,
                self.height > 0,
                self.inside(self.start@),
                self.inside(self.end@),
                self.shaped(),
                forall|i: int, j: int|
                    0 <= i < x && 0 <= j < self.height ==> #[trigger] self.grid@[i]@[j] <= 1,
            decreases self.width - x,
        {
            let mut y: usize = 0;
            while y < self.height
                invariant
                    x < self.width,
                    y <= self.height,
                    self.inside(self.start@),
                    self.inside(self.end@),
                    self.shaped(),
                    forall|i: int, j: int|
                        0 <= i < x && 0 <= j < self.height ==> #[trigger] self.grid@[i]@[j] <= 1,
                    forall|j: int| 0 <= j < y ==> #[trigger] self.grid@[x as int]@[j] <= 1,
                decreases self.height - y,
            {
                if self.grid[x][y] > 1 {
                    return Err(MazeError::CellValue);
                }
                y = y + 1;
            }
            x = x + 1;
        }
        Ok(())
    }

    /// Returns true if `cell` lies in the grid and can be walked on. A cell
    /// outside the grid is not looked up.
    pub fn is_passable(&self, cell: Coordinate) -> (passable: bool)
        requires
            self.shaped(),
        ensures
            passable == self.passable(cell@),
    {
        cell.x < self.width && cell.y < self.height && self.grid[cell.x][cell.y] == 1
    }

    /// Returns true if the x, y coordinates are inside the maze.
    pub fn is_inside(&self, x: i32, y: i32) -> (inside: bool)
        ensures
            inside == self.inside((x as int, y as int)),
    {
        x >= 0 && y >= 0 && (x as usize) < self.width && (y as usize) < self.height
    }
}

} // verus!
