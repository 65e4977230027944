use imageproc::contrast::{adaptive_threshold, cumulative_histogram, histogram, threshold, threshold_mut};
use imageproc::integralimage::{integral_image, sum_image_pixels};
use imageproc::raster::Image;

fn constant_image(width: u32, height: u32, intensity: u8) -> Image<u8> {
    Image::from_pixel(width, height, intensity)
}

fn pixels(image: Image<u8>) -> (u32, u32, Vec<u8>) {
    (image.width(), image.height(), image.into_raw())
}

#[test]
fn adaptive_threshold_constant() {
    let image = Image::from_pixel(3, 3, 100u8);
    let binary = adaptive_threshold(&image, 1);
    let expected = Image::from_pixel(3, 3, 255u8);
    assert_eq!(pixels(expected), pixels(binary));
}

#[test]
fn adaptive_threshold_one_darker_pixel() {
    for y in 0..3 {
        for x in 0..3 {
            let mut image = Image::from_pixel(3, 3, 200u8);
            image.put_pixel(x, y, 100u8);
            let binary = adaptive_threshold(&image, 1);
            // All except the dark pixel have brightness >= their local mean
            let mut expected = Image::from_pixel(3, 3, 255u8);
            expected.put_pixel(x, y, 0u8);
            assert_eq!(pixels(binary), pixels(expected));
        }
    }
}

#[test]
fn adaptive_threshold_one_lighter_pixel() {
    for y in 0..5 {
        for x in 0..5 {
            let mut image = Image::from_pixel(5, 5, 100u8);
            image.put_pixel(x, y, 200u8);

            let binary = adaptive_threshold(&image, 1);

            for yb in 0..5 {
                for xb in 0..5 {
                    let output_intensity = binary.get_pixel(xb, yb);

                    let is_light_pixel = xb == x && yb == y;

                    let local_mean_includes_light_pixel =
                        (yb as i32 - y as i32).abs() <= 1 && (xb as i32 - x as i32).abs() <= 1;

                    if is_light_pixel {
                        assert_eq!(output_intensity, 255);
                    } else if local_mean_includes_light_pixel {
                        assert_eq!(output_intensity, 0);
                    } else {
                        assert_eq!(output_intensity, 255);
                    }
                }
            }
        }
    }
}

#[test]
fn test_cumulative_histogram() {
    let image: Image<u8> = Image::from_raw(5, 1, vec![1u8, 2u8, 3u8, 2u8, 1u8]).unwrap();

    let hist = cumulative_histogram(&image);

    assert_eq!(hist[0], 0);
    assert_eq!(hist[1], 2);
    assert_eq!(hist[2], 4);
    assert_eq!(hist[3], 5);
    assert!(hist.iter().skip(4).all(|x| *x == 5));
}

#[test]
fn test_histogram() {
    let image: Image<u8> = Image::from_raw(5, 1, vec![1u8, 2u8, 3u8, 2u8, 1u8]).unwrap();

    let hist = histogram(&image);

    assert_eq!(hist[0], 0);
    assert_eq!(hist[1], 2);
    assert_eq!(hist[2], 2);
    assert_eq!(hist[3], 1);
}

#[test]
fn test_threshold_0_image_0() {
    let expected = 0u8;
    let actual = threshold(&constant_image(10, 10, 0), 0);
    assert_eq!(pixels(actual), pixels(constant_image(10, 10, expected)));
}

#[test]
fn test_threshold_0_image_1() {
    let expected = 255u8;
    let actual = threshold(&constant_image(10, 10, 1), 0);
    assert_eq!(pixels(actual), pixels(constant_image(10, 10, expected)));
}

#[test]
fn test_threshold_threshold_255_image_255() {
    let expected = 0u8;
    let actual = threshold(&constant_image(10, 10, 255), 255);
    assert_eq!(pixels(actual), pixels(constant_image(10, 10, expected)));
}

#[test]
fn test_threshold() {
    let source_contents = (0u8..26u8).map(|x| x * 10u8).collect();
    let source = Image::from_raw(26, 1, source_contents).unwrap();

    let expected_contents = vec![0u8; 13].into_iter().chain(vec![255u8; 13]).collect();

    let expected = Image::from_raw(26, 1, expected_contents).unwrap();

    let actual = threshold(&source, 125u8);
    assert_eq!(pixels(expected), pixels(actual));
}

#[test]
fn threshold_mut_sends_the_threshold_itself_to_background() {
    let mut image = Image::from_raw(3, 1, vec![124u8, 125, 126]).unwrap();
    threshold_mut(&mut image, 125);
    assert_eq!(pixels(image), (3, 1, vec![0u8, 0, 255]));
}

#[test]
fn histogram_counts_every_sample_once() {
    let image = Image::from_raw(4, 2, vec![0u8, 255, 255, 7, 7, 7, 0, 9]).unwrap();
    let hist = histogram(&image);
    assert_eq!(hist[0], 2);
    assert_eq!(hist[7], 3);
    assert_eq!(hist[9], 1);
    assert_eq!(hist[255], 2);
    assert_eq!(hist.iter().sum::<u32>(), 8);
    let cumulative = cumulative_histogram(&image);
    assert_eq!(cumulative[0], 2);
    assert_eq!(cumulative[6], 2);
    assert_eq!(cumulative[7], 5);
    assert_eq!(cumulative[9], 6);
    assert_eq!(cumulative[254], 6);
    assert_eq!(cumulative[255], 8);
}

#[test]
fn histogram_of_an_empty_image_is_zero() {
    let image = Image::from_raw(0, 4, Vec::<u8>::new()).unwrap();
    assert!(histogram(&image).iter().all(|c| *c == 0));
    assert!(cumulative_histogram(&image).iter().all(|c| *c == 0));
}

#[test]
fn integral_image_holds_running_sums() {
    let image = Image::from_raw(3, 2, vec![1u8, 2, 3, 4, 5, 6]).unwrap();
    let integral = integral_image(&image);
    assert_eq!((integral.width(), integral.height()), (3, 2));
    assert_eq!(integral.into_raw(), vec![1u64, 3, 6, 5, 12, 21]);
}

#[test]
fn sum_image_pixels_of_inner_and_edge_blocks() {
    let image = Image::from_raw(3, 3, vec![1u8, 2, 3, 4, 5, 6, 7, 8, 9]).unwrap();
    let integral = integral_image(&image);
    assert_eq!(sum_image_pixels(&integral, 0, 0, 2, 2), 45);
    assert_eq!(sum_image_pixels(&integral, 1, 1, 2, 2), 28);
    assert_eq!(sum_image_pixels(&integral, 1, 1, 1, 1), 5);
    assert_eq!(sum_image_pixels(&integral, 0, 1, 1, 2), 24);
    assert_eq!(sum_image_pixels(&integral, 2, 0, 2, 1), 9);
}

#[test]
fn adaptive_threshold_rounds_the_mean_down() {
    // Block of the centre: 8 samples of 10 and one of 11, mean 10 after rounding down.
    let mut image = Image::from_pixel(3, 3, 10u8);
    image.put_pixel(0, 0, 11);
    let binary = adaptive_threshold(&image, 1);
    assert_eq!(binary.get_pixel(1, 1), 255);
    // A radius larger than the image takes the whole image as the block.
    let mut image = Image::from_pixel(2, 2, 10u8);
    image.put_pixel(0, 0, 50);
    let binary = adaptive_threshold(&image, 7);
    assert_eq!(pixels(binary), (2, 2, vec![255u8, 0, 0, 0]));
}
